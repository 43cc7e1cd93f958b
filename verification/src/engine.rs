//! The block-based disk cache engine.

use crate::bits::{align_up, aligned_up, aligned_up_is_least, PAGE};
use crate::device::{Device, Partition, Request};
use crate::error::{Error, ErrorKind};
use crate::eviction::{EvictionPicker, PickerEvent};
use crate::indexer::{
    older_than, shard_of, spec_shard, supersede, superseded, BlockId, EntryAddress, Index, Indexer,
};
use crate::manager::{
    driven, granted, ran_out, refused, restored, retired, retired_blocks_are_idle, retirement, told,
    BlockManager, BlockStatistics, State,
};
use crate::recover::{
    failures, latest, latest_is_latest, newest, newest_is_newest, recovered, restarted, successes,
    versions, versions_agree, EntryInfo, RecoverRunner, Tombstone, Version,
};
use crate::serde::{
    covered, read_is_determined, xxh64, Compression, EntryHeader, Sequence, CHECKSUM_SEED,
};
use std::sync::Arc;
use vstd::prelude::*;
use vstd::slice::slice_subrange;

verus! {

/// The number of tombstones in a page of the tombstone log: one takes a hash and a sequence.
pub const TOMBSTONE_SLOTS_PER_PAGE: usize = 256;

/// Config for the block-based disk cache engine.
///
/// The engine is meant for general cache entries with sizes from 2K to hundreds of MiBs. Each entry
/// is aligned to a multiple of 4K on disk, hence too small entries lead to heavy internal
/// fragmentation. Entries are evicted in units of blocks.
pub struct BlockEngineConfig<D, F, E> {
    pub device: D,
    pub block_size: usize,
    pub compression: Compression,
    pub indexer_shards: usize,
    pub recover_concurrency: usize,
    pub flushers: usize,
    pub reclaimers: usize,
    pub buffer_pool_size: usize,
    pub blob_index_size: usize,
    /// `None` stands for twice the size of the buffer pool.
    pub submit_queue_size_threshold: Option<usize>,
    /// `None` stands for the number of reclaimers.
    pub clean_block_threshold: Option<usize>,
    pub eviction_pickers: Vec<E>,
    pub admission_filter: F,
    pub reinsertion_filter: F,
    pub enable_tombstone_log: bool,
}

impl<D, F, E> BlockEngineConfig<D, F, E> {
    /// Create a config with default values for all but the device, the eviction pickers and the
    /// filters.
    pub fn new(
        device: D,
        eviction_pickers: Vec<E>,
        admission_filter: F,
        reinsertion_filter: F,
    ) -> (config: Self)
        ensures
            config == (BlockEngineConfig {
                device,
                block_size: 16777216,
                compression: Compression::Uncompressed,
                indexer_shards: 64,
                recover_concurrency: 8,
                flushers: 1,
                reclaimers: 1,
                buffer_pool_size: 16777216,
                blob_index_size: 4096,
                submit_queue_size_threshold: None,
                clean_block_threshold: None,
                eviction_pickers,
                admission_filter,
                reinsertion_filter,
                enable_tombstone_log: false,
            }),
    {
        BlockEngineConfig {
            device,
            block_size: 16 * 1024 * 1024,
            compression: Compression::Uncompressed,
            indexer_shards: 64,
            recover_concurrency: 8,
            flushers: 1,
            reclaimers: 1,
            buffer_pool_size: 16 * 1024 * 1024,
            blob_index_size: 4 * 1024,
            submit_queue_size_threshold: None,
            clean_block_threshold: None,
            eviction_pickers,
            admission_filter,
            reinsertion_filter,
            enable_tombstone_log: false,
        }
    }

    /// Set the block size, which is aligned up to 4K.
    ///
    /// A block is the unit of eviction, and its size limits the size of an entry.
    pub fn with_block_size(self, block_size: usize) -> (config: Self)
        requires
            aligned_up(PAGE as int, block_size as int) <= usize::MAX,
        ensures
            config == (BlockEngineConfig {
                block_size: aligned_up(PAGE as int, block_size as int) as usize,
                ..self
            }),
    {
        BlockEngineConfig { block_size: align_up(PAGE, block_size), ..self }
    }

    /// Set the number of shards of the indexer.
    pub fn with_indexer_shards(self, indexer_shards: usize) -> (config: Self)
        ensures
            config == (BlockEngineConfig { indexer_shards, ..self }),
    {
        BlockEngineConfig { indexer_shards, ..self }
    }

    /// Set how many blocks are recovered at the same time.
    pub fn with_recover_concurrency(self, recover_concurrency: usize) -> (config: Self)
        ensures
            config == (BlockEngineConfig { recover_concurrency, ..self }),
    {
        BlockEngineConfig { recover_concurrency, ..self }
    }

    /// Set the number of flushers, which limits how many blocks are written at the same time.
    pub fn with_flushers(self, flushers: usize) -> (config: Self)
        ensures
            config == (BlockEngineConfig { flushers, ..self }),
    {
        BlockEngineConfig { flushers, ..self }
    }

    /// Set the admission filter, which picks the entries that are inserted.
    pub fn with_admission_filter(self, filter: F) -> (config: Self)
        ensures
            config == (BlockEngineConfig { admission_filter: filter, ..self }),
    {
        BlockEngineConfig { admission_filter: filter, ..self }
    }

    /// Set the number of reclaimers, which limits how many blocks are cleaned at the same time.
    pub fn with_reclaimers(self, reclaimers: usize) -> (config: Self)
        ensures
            config == (BlockEngineConfig { reclaimers, ..self }),
    {
        BlockEngineConfig { reclaimers, ..self }
    }

    /// Set the size of the buffer pool, which the flushers share evenly.
    pub fn with_buffer_pool_size(self, buffer_pool_size: usize) -> (config: Self)
        ensures
            config == (BlockEngineConfig { buffer_pool_size, ..self }),
    {
        BlockEngineConfig { buffer_pool_size, ..self }
    }

    /// Set the size of the index of each blob, which is aligned up to 4K.
    ///
    /// A larger index holds more entries, but increases the I/O size of each write.
    pub fn with_blob_index_size(self, blob_index_size: usize) -> (config: Self)
        requires
            aligned_up(PAGE as int, blob_index_size as int) <= usize::MAX,
        ensures
            config == (BlockEngineConfig {
                blob_index_size: aligned_up(PAGE as int, blob_index_size as int) as usize,
                ..self
            }),
    {
        BlockEngineConfig { blob_index_size: align_up(PAGE, blob_index_size), ..self }
    }

    /// Set the threshold of the submit queue. While the queue is larger, further entries are
    /// ignored.
    ///
    /// Default: twice the size of the buffer pool.
    pub fn with_submit_queue_size_threshold(self, submit_queue_size_threshold: usize) -> (config:
        Self)
        ensures
            config == (BlockEngineConfig {
                submit_queue_size_threshold: Some(submit_queue_size_threshold),
                ..self
            }),
    {
        BlockEngineConfig {
            submit_queue_size_threshold: Some(submit_queue_size_threshold),
            ..self
        }
    }

    /// Set the number of clean blocks below which blocks are cleaned.
    ///
    /// Default: the number of reclaimers.
    pub fn with_clean_block_threshold(self, clean_block_threshold: usize) -> (config: Self)
        ensures
            config == (BlockEngineConfig {
                clean_block_threshold: Some(clean_block_threshold),
                ..self
            }),
    {
        BlockEngineConfig { clean_block_threshold: Some(clean_block_threshold), ..self }
    }

    /// The number of clean blocks below which blocks are cleaned. By default it is the number of
    /// reclaimers.
    pub open spec fn spec_clean_threshold(self) -> usize {
        match self.clean_block_threshold {
            Some(threshold) => threshold,
            None => self.reclaimers,
        }
    }

    /// Get the number of clean blocks below which blocks are cleaned.
    pub fn clean_threshold(&self) -> (threshold: usize)
        ensures
            threshold == self.spec_clean_threshold(),
            self.clean_block_threshold matches Some(t) ==> threshold == t,
            self.clean_block_threshold is None ==> threshold == self.reclaimers,
    {
        match self.clean_block_threshold {
            Some(threshold) => threshold,
            None => self.reclaimers,
        }
    }

    /// Set the eviction pickers, which pick the block to clean.
    ///
    /// They are asked in their order, until one picks a block. If none does, any block is picked.
    pub fn with_eviction_pickers(self, eviction_pickers: Vec<E>) -> (config: Self)
        ensures
            config == (BlockEngineConfig { eviction_pickers, ..self }),
    {
        BlockEngineConfig { eviction_pickers, ..self }
    }

    /// Set the reinsertion filter, which picks the entries of a block that survive its cleaning.
    pub fn with_reinsertion_filter(self, filter: F) -> (config: Self)
        ensures
            config == (BlockEngineConfig { reinsertion_filter: filter, ..self }),
    {
        BlockEngineConfig { reinsertion_filter: filter, ..self }
    }

    /// Enable the tombstone log, without which deleted entries can come back after a restart.
    pub fn with_tombstone_log(self, enable: bool) -> (config: Self)
        ensures
            config == (BlockEngineConfig { enable_tombstone_log: enable, ..self }),
    {
        BlockEngineConfig { enable_tombstone_log: enable, ..self }
    }
}

/// The size of the partition of the tombstone log: it has a slot for every page of the device.
pub open spec fn tombstone_log_size(capacity: nat) -> nat {
    let entries = capacity / PAGE as nat;
    let slots = TOMBSTONE_SLOTS_PER_PAGE as nat;
    let pages = entries / slots + if entries % slots > 0 {
        1nat
    } else {
        0
    };
    pages * PAGE as nat
}

/// `after` is `before` once it was asked for a partition of the given size, and refused it.
pub open spec fn refused_by<D: Device>(before: D, after: D, size: usize, e: Error) -> bool {
    &&& after.requests() == before.requests() + refused(size, e)
    &&& after.spec_partitions() == before.spec_partitions()
}

/// An engine whose tombstone log was set aside, and whose blocks are still to be opened.
pub struct Reserved<D: Device, F, E> {
    pub config: BlockEngineConfig<D, F, E>,
    pub submit_queue_size_threshold: usize,
    /// The partition of the tombstone log.
    pub tombstone_log: Option<Arc<D::Part>>,
}

impl<D: Device, F, E: EvictionPicker<D::Part>> BlockEngineConfig<D, F, E> {
    /// The engine can be built: there are flushers, shards and blocks to work with, and the numbers
    /// are not too large.
    pub open spec fn buildable(self) -> bool {
        &&& self.device.wf()
        &&& self.flushers > 0
        &&& self.indexer_shards > 0
        &&& self.block_size > 0
        &&& self.device.spec_capacity() / self.block_size as nat <= u32::MAX
        &&& self.submit_queue_size_threshold is None ==> self.buffer_pool_size * 2 <= usize::MAX
    }

    /// The threshold of the submit queue. By default it is twice the size of the buffer pool.
    pub open spec fn spec_threshold(self) -> int {
        match self.submit_queue_size_threshold {
            Some(threshold) => threshold as int,
            None => self.buffer_pool_size * 2,
        }
    }

    /// Start to build the engine: set aside the partition of the tombstone log, if there is one.
    ///
    /// The log is opened next, and then the blocks. It is the caller that reads the log.
    pub fn build(self) -> (r: Result<Reserved<D, F, E>, Error>)
        requires
            self.buildable(),
        ensures
            match r {
                Ok(reserved) => {
                    let device = reserved.config.device;
                    let size = tombstone_log_size(self.device.spec_capacity());
                    &&& reserved.config == BlockEngineConfig { device, ..self }
                    &&& reserved.config.buildable()
                    &&& reserved.submit_queue_size_threshold == self.spec_threshold()
                    &&& self.submit_queue_size_threshold matches Some(threshold)
                        ==> reserved.submit_queue_size_threshold == threshold
                    &&& self.submit_queue_size_threshold is None
                        ==> reserved.submit_queue_size_threshold == 2 * self.buffer_pool_size
                    &&& device.spec_capacity() == self.device.spec_capacity()
                    &&& self.device.reliable() ==> device.reliable()
                    &&& reserved.tombstone_log is Some <==> self.enable_tombstone_log
                    &&& match reserved.tombstone_log {
                        Some(log) => {
                            &&& log.spec_size() == size
                            &&& device.spec_partitions() == self.device.spec_partitions().push(log)
                            &&& device.spec_allocated() == self.device.spec_allocated() + size
                            &&& device.requests() == self.device.requests() + granted(
                                size as usize,
                                1,
                            )
                        },
                        None => device == self.device,
                    }
                },
                Err(e) => {
                    let size = tombstone_log_size(self.device.spec_capacity()) as usize;
                    &&& self.enable_tombstone_log
                    &&& !self.device.reliable() || self.device.room(size) == 0
                    &&& exists|device: D| #[trigger] refused_by(self.device, device, size, e)
                },
            },
    {
        let submit_queue_size_threshold: usize = match self.submit_queue_size_threshold {
            Some(threshold) => threshold,
            None => self.buffer_pool_size * 2,
        };
        let enabled = self.enable_tombstone_log;
        let mut config = self;
        let mut tombstone_log: Option<Arc<D::Part>> = None;
        if enabled {
            let max_entries: usize = config.device.capacity() / PAGE;
            let rest: usize = max_entries % TOMBSTONE_SLOTS_PER_PAGE;
            let pages: usize = max_entries / TOMBSTONE_SLOTS_PER_PAGE + (if rest > 0 {
                1
            } else {
                0
            });
            let size: usize = pages * PAGE;
            assert(size == tombstone_log_size(self.device.spec_capacity()));
            match config.device.create_partition(size) {
                Ok(partition) => {
                    assert(config.device.requests() =~= self.device.requests() + granted(
                        size,
                        1,
                    ));
                    tombstone_log = Some(partition);
                },
                Err(e) => {
                    proof {
                        assert(config.device.requests() =~= self.device.requests() + refused(
                            size,
                            e,
                        ));
                        assert(refused_by(self.device, config.device, size, e));
                    }
                    return Err(e);
                },
            }
        }
        Ok(Reserved { config, submit_queue_size_threshold, tombstone_log })
    }
}

/// An engine whose blocks were opened, and whose entries are still to be recovered.
pub struct Opened<D: Device, F, E: EvictionPicker<D::Part>, W, R> {
    pub config: BlockEngineConfig<D, F, E>,
    pub submit_queue_size_threshold: usize,
    pub indexer: Indexer,
    pub block_manager: BlockManager<D::Part, E, W, R>,
}

/// How many of the blocks a device of the given length has room for. The blocks are taken to start
/// at the front of the device; behind a tombstone log on the same device they end later than that.
pub open spec fn backed_blocks(blocks: nat, block_size: nat, physical_len: Option<u64>) -> nat {
    match physical_len {
        Some(len) => if len as nat / block_size < blocks {
            len as nat / block_size
        } else {
            blocks
        },
        None => blocks,
    }
}

impl<D: Device, F, E: EvictionPicker<D::Part>> Reserved<D, F, E> {
    /// Divide the rest of the device into blocks. If the device was made smaller, the blocks behind
    /// its end are not in use: `physical_len` is its length, `None` if it cannot be resized.
    ///
    /// The blocks are scanned next, those in use alone. It is the caller that reads them.
    pub fn open<W, R>(self, physical_len: Option<u64>) -> (r: Result<Opened<D, F, E, W, R>, Error>)
        requires
            self.config.buildable(),
        ensures
            match r {
                Ok(opened) => {
                    let config = self.config;
                    let before = config.device.spec_partitions();
                    let device = opened.config.device;
                    let manager = opened.block_manager;
                    let n = manager.spec_blocks().len();
                    let tried = config.device.requests() + granted(config.block_size, n);
                    let active = backed_blocks(n, config.block_size as nat, physical_len);
                    &&& opened.wf()
                    &&& opened.config == BlockEngineConfig {
                        device,
                        eviction_pickers: opened.config.eviction_pickers,
                        ..config
                    }
                    &&& opened.config.eviction_pickers@.len() == 0
                    &&& opened.submit_queue_size_threshold == self.submit_queue_size_threshold
                    &&& device.spec_capacity() == config.device.spec_capacity()
                    &&& device.spec_allocated() == config.device.spec_allocated() + n
                        * config.block_size
                    &&& device.spec_partitions().len() == before.len() + n
                    &&& device.spec_partitions().take(before.len() as int) == before
                    &&& forall|i: int|
                        0 <= i < n ==> {
                            let block = #[trigger] manager.spec_blocks()[i];
                            &&& block.spec_id() == i
                            &&& block.spec_partition() == device.spec_partitions()[before.len() + i]
                            &&& block.spec_partition().spec_size() == config.block_size
                            &&& block.spec_statistics() == BlockStatistics::zero()
                        }
                    &&& if device.spec_capacity() - device.spec_allocated() < config.block_size {
                        device.requests() == tried
                    } else {
                        ran_out(tried, device.requests(), config.block_size)
                    }
                    &&& manager@ == State::<E, W, R>::fresh(active, manager@.eviction_pickers)
                    &&& manager@.active <= n
                    &&& physical_len is None ==> manager@.active == n
                    &&& physical_len matches Some(len) ==> forall|i: int|
                        0 <= i < n ==> ((#[trigger] manager.spec_blocks()[i]).spec_id()
                            < manager@.active <==> (i + 1) * config.block_size <= len)
                    &&& manager.spec_reclaim_concurrency() == config.reclaimers
                    &&& manager.spec_clean_block_threshold() == config.spec_clean_threshold()
                    &&& n == config.device.room(config.block_size)
                    &&& told(
                        config.eviction_pickers@,
                        manager@.eviction_pickers,
                        seq![PickerEvent::Opened {
                            blocks: Seq::new(n, |i: int| i as BlockId),
                            block_size: config.block_size,
                        }],
                    )
                    &&& opened.indexer@ == Map::<u64, Index>::empty()
                    &&& opened.indexer.spec_shards() == config.indexer_shards
                },
                Err(e) => {
                    let config = self.config;
                    &&& !config.device.reliable()
                    &&& e.spec_kind() != ErrorKind::NoSpace
                    &&& exists|device: D, n: nat|
                        {
                            &&& #[trigger] granted(config.block_size, n).len() == n
                            &&& #[trigger] device.requests() == config.device.requests() + granted(
                                config.block_size,
                                n,
                            ) + refused(config.block_size, e)
                        }
                },
            },
    {
        let mut config = self.config;
        let mut pickers: Vec<E> = Vec::new();
        std::mem::swap(&mut pickers, &mut config.eviction_pickers);
        let indexer = Indexer::new(config.indexer_shards);
        proof {
            config.device.wf_fits();
            let size = config.block_size as int;
            vstd::arithmetic::div_mod::lemma_div_is_ordered(
                config.device.spec_capacity() - config.device.spec_allocated(),
                config.device.spec_capacity() as int,
                size,
            );
        }
        let ghost before = config.device;
        let threshold: usize = config.clean_threshold();
        match BlockManager::open(
            &mut config.device,
            config.block_size,
            pickers,
            config.reclaimers,
            threshold,
        ) {
            Ok(manager) => {
                let mut block_manager = manager;
                if let Some(len) = physical_len {
                    let backed: u64 = len / config.block_size as u64;
                    let blocks: usize = block_manager.blocks();
                    if backed < blocks as u64 {
                        block_manager.limit_active(backed as usize);
                    }
                }
                proof {
                    config.device.wf_fits();
                    if let Some(len) = physical_len {
                        let n = block_manager.spec_blocks().len();
                        assert forall|i: int| 0 <= i < n implies ((
                        #[trigger] block_manager.spec_blocks()[i]).spec_id() < block_manager@.active
                            <==> (i + 1) * config.block_size <= len) by {
                            blocks_in_use_lie_on_the_device(
                                n,
                                config.block_size as nat,
                                len,
                                i as nat,
                            );
                        }
                    }
                }
                Ok(
                    Opened {
                        config,
                        submit_queue_size_threshold: self.submit_queue_size_threshold,
                        indexer,
                        block_manager,
                    },
                )
            },
            Err(e) => {
                proof {
                    let n = (config.device.spec_partitions().len()
                        - before.spec_partitions().len()) as nat;
                    assert(granted(config.block_size, n).len() == n);
                    assert(config.device.requests() == before.requests() + granted(
                        config.block_size,
                        n,
                    ) + refused(config.block_size, e));
                }
                Err(e)
            },
        }
    }
}

impl<D: Device, F, E: EvictionPicker<D::Part>, W, R> Opened<D, F, E, W, R> {
    /// The parts are in order, and the blocks are not larger than the device.
    pub open spec fn wf(self) -> bool {
        &&& self.config.device.wf()
        &&& self.config.flushers > 0
        &&& self.config.block_size > 0
        &&& self.indexer.wf()
        &&& self.block_manager.wf()
        &&& self.block_manager.spec_blocks().len() * self.config.block_size <= usize::MAX
    }

    /// Check if there are so few blocks that those that are written and those that are kept clean
    /// make up more than half of them.
    pub fn is_short_of_blocks(&self) -> (short: bool)
        requires
            self.wf(),
        ensures
            short == (self.config.flushers + self.config.spec_clean_threshold()
                > self.block_manager.spec_blocks().len() / 2),
    {
        let blocks: usize = self.block_manager.blocks();
        self.config.flushers.saturating_add(self.config.clean_threshold()) > blocks / 2
    }

    /// Get the blocks to scan: those in use.
    pub fn blocks_to_scan(&self) -> (blocks: Vec<BlockId>)
        requires
            self.wf(),
        ensures
            blocks@ == Seq::new(self.block_manager@.active, |i: int| i as BlockId),
    {
        let active: usize = self.block_manager.blocks() - self.block_manager.retired_count();
        let mut blocks: Vec<BlockId> = Vec::new();
        let mut i: usize = 0;
        while i < active
            invariant
                self.wf(),
                active == self.block_manager@.active,
                i <= active,
                blocks@ == Seq::new(i as nat, |j: int| j as BlockId),
            decreases active - i,
        {
            blocks.push(i as BlockId);
            i = i + 1;
            assert(blocks@ =~= Seq::new(i as nat, |j: int| j as BlockId));
        }
        blocks
    }

    /// Get how much of the buffer pool each flusher has.
    pub fn io_buffer_size(&self) -> (size: usize)
        requires
            self.wf(),
        ensures
            size == self.config.buffer_pool_size as nat / self.config.flushers as nat,
    {
        self.config.buffer_pool_size / self.config.flushers
    }

    /// Recover the entries, from the scans of the blocks in use and from the tombstone log, and
    /// start the engine.
    pub fn recover(
        self,
        scans: Vec<Result<Vec<EntryInfo>, Error>>,
        tombstones: &Vec<Tombstone>,
    ) -> (r: Result<BlockEngine<D, F, E, W, R>, Error>)
        requires
            self.wf(),
            scans@.len() <= self.block_manager@.active,
            failures(scans@).len() == 0 ==> latest(versions(successes(scans@), tombstones@))
                < u64::MAX,
        ensures
            match r {
                Ok(engine) => {
                    let blocks = successes(scans@);
                    &&& failures(scans@).len() == 0
                    &&& engine.wf()
                    &&& engine == BlockEngine {
                        admission_filter: self.config.admission_filter,
                        reinsertion_filter: self.config.reinsertion_filter,
                        device: self.config.device,
                        block_size: self.config.block_size,
                        clean_block_threshold: self.config.spec_clean_threshold(),
                        indexer: engine.indexer,
                        block_manager: engine.block_manager,
                        flushers: self.config.flushers,
                        submit_queue_size_threshold: self.submit_queue_size_threshold,
                        sequence: engine.sequence,
                        active: true,
                    }
                    &&& engine.sequence == latest(versions(blocks, tombstones@)) + 1
                    &&& engine.indexer@ == recovered(
                        self.indexer@,
                        versions(blocks, tombstones@),
                    )
                    &&& engine.indexer.spec_shards() == self.indexer.spec_shards()
                    &&& engine.block_manager.same_config(self.block_manager)
                    &&& restarted(self.block_manager, engine.block_manager, blocks)
                    &&& self.indexer@ == Map::<u64, Index>::empty() ==> engine.ahead()
                    &&& self.indexer@ == Map::<u64, Index>::empty() ==> forall|hash: u64|
                        (#[trigger] engine.indexer.lookup(hash)) matches Some(addr) ==> exists|
                            b: int,
                            i: int,
                        |
                            {
                                &&& 0 <= b < scans@.len()
                                &&& 0 <= i < (scans@[b]->Ok_0)@.len()
                                &&& #[trigger] (scans@[b]->Ok_0)@[i] == (EntryInfo { hash, addr })
                            }
                    &&& self.indexer@ == Map::<u64, Index>::empty() ==> forall|b: int, i: int|
                        {
                            &&& 0 <= b < scans@.len()
                            &&& 0 <= i < (scans@[b]->Ok_0)@.len()
                            &&& forall|c: int, j: int|
                                {
                                    &&& 0 <= c < scans@.len()
                                    &&& 0 <= j < (scans@[c]->Ok_0)@.len()
                                    &&& c != b || j != i
                                    &&& (#[trigger] (scans@[c]->Ok_0)@[j]).hash == (
                                    scans@[b]->Ok_0)@[i].hash
                                } ==> (scans@[c]->Ok_0)@[j].addr.sequence < (
                                scans@[b]->Ok_0)@[i].addr.sequence
                            &&& forall|t: int|
                                0 <= t < tombstones@.len() && (#[trigger] tombstones@[t]).hash == (
                                scans@[b]->Ok_0)@[i].hash ==> tombstones@[t].sequence < (
                                scans@[b]->Ok_0)@[i].addr.sequence
                        } ==> engine.indexer.lookup(
                            (#[trigger] (scans@[b]->Ok_0)@[i]).hash,
                        ) == Some((scans@[b]->Ok_0)@[i].addr)
                    &&& forall|b: int, i: int|
                        0 <= b < scans@.len() && 0 <= i < (scans@[b]->Ok_0)@.len() ==> (
                        #[trigger] (scans@[b]->Ok_0)@[i]).addr.sequence < engine.sequence
                    &&& forall|t: int|
                        0 <= t < tombstones@.len() ==> (#[trigger] tombstones@[t]).sequence
                            < engine.sequence
                },
                Err(e) => {
                    &&& failures(scans@).len() > 0
                    &&& e matches Error::Recover { reasons } && reasons@ == failures(scans@)
                },
            },
    {
        let clean_block_threshold: usize = self.config.clean_threshold();
        let mut indexer = self.indexer;
        let mut block_manager = self.block_manager;
        match RecoverRunner::run(scans, tombstones, &mut indexer, &mut block_manager) {
            Ok(sequence) => {
                let engine = BlockEngine {
                    admission_filter: self.config.admission_filter,
                    reinsertion_filter: self.config.reinsertion_filter,
                    device: self.config.device,
                    block_size: self.config.block_size,
                    clean_block_threshold,
                    indexer,
                    block_manager,
                    flushers: self.config.flushers,
                    submit_queue_size_threshold: self.submit_queue_size_threshold,
                    sequence,
                    active: true,
                };
                proof {
                    let found = versions(successes(scans@), tombstones@);
                    if self.indexer@ == Map::<u64, Index>::empty() {
                        versions_agree(successes(scans@), tombstones@);
                        recovered_is_old(found);
                    }
                }
                Ok(engine)
            },
            Err(e) => Err(e),
        }
    }
}

/// What was recovered was written before the next write.
proof fn recovered_is_old(found: Seq<Version>)
    requires
        forall|i: int|
            0 <= i < found.len() ==> ((#[trigger] found[i]).address matches Some(a) ==> a.sequence
                == found[i].sequence),
    ensures
        forall|hash: u64| #[trigger]
            recovered(Map::empty(), found).contains_key(hash) ==> recovered(
                Map::empty(),
                found,
            )[hash].spec_sequence() <= latest(found),
{
    let m = recovered(Map::empty(), found);
    latest_is_latest(found);
    assert forall|hash: u64| #[trigger] m.contains_key(hash) implies m[hash].spec_sequence()
        <= latest(found) by {
        newest_is_newest(found, hash);
        let v = newest(found, hash)->0;
        let i = choose|i: int| 0 <= i < found.len() && #[trigger] found[i] == v;
        assert(found[i].sequence <= latest(found));
    }
}

/// Block-based disk cache engine.
pub struct BlockEngine<D: Device, F, E: EvictionPicker<D::Part>, W, R> {
    /// Picks the entries that are inserted.
    pub admission_filter: F,
    /// Picks the entries of a block that survive its cleaning.
    pub reinsertion_filter: F,
    pub device: D,
    pub block_size: usize,
    pub clean_block_threshold: usize,
    pub indexer: Indexer,
    pub block_manager: BlockManager<D::Part, E, W, R>,
    /// The number of flushers.
    pub flushers: usize,
    pub submit_queue_size_threshold: usize,
    /// The sequence of the next write.
    pub sequence: Sequence,
    /// Whether the engine was not closed yet.
    pub active: bool,
}

impl<D: Device, F, E: EvictionPicker<D::Part>, W, R> BlockEngine<D, F, E, W, R> {
    /// The parts are in order, and the blocks are not larger than the device.
    pub open spec fn wf(self) -> bool {
        &&& self.device.wf()
        &&& self.flushers > 0
        &&& self.block_size > 0
        &&& self.indexer.wf()
        &&& self.block_manager.wf()
        &&& self.block_manager.spec_blocks().len() * self.block_size <= usize::MAX
    }

    /// Every write that the indexer knows of was before the next one.
    pub open spec fn ahead(self) -> bool {
        older_than(self.indexer@, self.sequence)
    }

    /// Take the sequence of a write.
    fn next_sequence(&mut self) -> (sequence: Sequence)
        ensures
            sequence == old(self).sequence,
            *final(self) == (BlockEngine {
                sequence: following_sequence(old(self).sequence),
                ..*old(self)
            }),
    {
        let sequence: Sequence = self.sequence;
        self.sequence = if sequence < u64::MAX {
            sequence + 1
        } else {
            0
        };
        sequence
    }

    /// Check if an entry is admitted, given whether the admission filter picks it, and whether writes
    /// to the device are throttled.
    pub fn admits(&self, picked: bool, write_throttled: bool) -> (admits: bool)
        ensures
            admits == (picked && !write_throttled),
    {
        picked && !write_throttled
    }

    /// Decide on the write of an entry: it is submitted to a flusher, unless the engine was closed,
    /// the entry is still young, or the submit queue is too large.
    pub fn enqueue(&mut self, hash: u64, age: Option<Age>, submit_queue_size: usize) -> (enqueued:
        Enqueued)
        requires
            old(self).wf(),
        ensures
            final(self).wf(),
            enqueued == if !old(self).active {
                Enqueued::Closed
            } else if age == Some(Age::Young) {
                Enqueued::Young
            } else if submit_queue_size > old(self).submit_queue_size_threshold {
                Enqueued::Overflow
            } else {
                Enqueued::Submitted {
                    flusher: spec_shard(hash, old(self).flushers as nat) as usize,
                    sequence: old(self).sequence,
                }
            },
            *final(self) == if enqueued is Submitted {
                BlockEngine { sequence: following_sequence(old(self).sequence), ..*old(self) }
            } else {
                *old(self)
            },
            old(self).ahead() && old(self).sequence < u64::MAX ==> final(self).ahead(),
            enqueued matches Enqueued::Submitted { flusher, sequence } ==> {
                &&& flusher == hash as usize % old(self).flushers
                &&& sequence == old(self).sequence
                &&& sequence < u64::MAX ==> final(self).sequence == sequence + 1
            },
    {
        if !self.active {
            return Enqueued::Closed;
        }
        match age {
            Some(Age::Young) => {
                return Enqueued::Young;
            },
            _ => {},
        }
        if submit_queue_size > self.submit_queue_size_threshold {
            return Enqueued::Overflow;
        }
        let sequence: Sequence = self.next_sequence();
        Enqueued::Submitted { flusher: shard_of(hash, self.flushers), sequence }
    }

    /// Delete an entry. Returns what is to be submitted to a flusher, `None` if the engine was
    /// closed.
    pub fn delete(&mut self, hash: u64) -> (deletion: Option<Deletion>)
        requires
            old(self).wf(),
            superseded(
                old(self).indexer@,
                hash,
                Index::Tombstone(old(self).sequence),
            ) matches Some(address) ==> address.fits(),
        ensures
            final(self).wf(),
            !old(self).active ==> deletion is None && *final(self) == *old(self),
            old(self).active ==> {
                let sequence = old(self).sequence;
                let tombstone = Index::Tombstone(sequence);
                &&& *final(self) == BlockEngine {
                    sequence: following_sequence(sequence),
                    indexer: final(self).indexer,
                    ..*old(self)
                }
                &&& final(self).indexer@ == supersede(old(self).indexer@, hash, tombstone)
                &&& final(self).indexer.spec_shards() == old(self).indexer.spec_shards()
                &&& deletion == Some(
                    Deletion {
                        flusher: spec_shard(hash, old(self).flushers as nat) as usize,
                        tombstone: Tombstone { hash, sequence },
                        stats: match superseded(old(self).indexer@, hash, tombstone) {
                            Some(address) => Some(
                                InvalidStats {
                                    block: address.block,
                                    size: address.aligned_len() as usize,
                                },
                            ),
                            None => None,
                        },
                    },
                )
            },
            old(self).active && old(self).ahead() ==> {
                &&& final(self).indexer.lookup(hash) is None
                &&& old(self).sequence < u64::MAX ==> final(self).ahead()
                &&& deletion matches Some(d) && (d.stats is Some <==> old(self).indexer.lookup(
                    hash,
                ) is Some)
            },
            deletion matches Some(d) ==> {
                &&& d.flusher == hash as usize % old(self).flushers
                &&& d.tombstone == (Tombstone { hash, sequence: old(self).sequence })
                &&& d.stats matches Some(stats) ==> (old(self).indexer.lookup(hash) matches Some(
                    address,
                ) && {
                    &&& stats.block == address.block
                    &&& stats.size % PAGE == 0
                    &&& address.len <= stats.size < address.len + PAGE
                })
            },
            forall|other: u64|
                other != hash ==> #[trigger] final(self).indexer.lookup(other) == old(
                    self,
                ).indexer.lookup(other),
    {
        if !self.active {
            return None;
        }
        let sequence: Sequence = self.next_sequence();
        let stats = match self.indexer.insert_tombstone(hash, sequence) {
            Some(address) => {
                proof {
                    aligned_up_is_least(PAGE as int, address.len as int);
                }
                Some(
                    InvalidStats { block: address.block, size: align_up(PAGE, address.len as usize) },
                )
            },
            None => None,
        };
        Some(
            Deletion {
                flusher: shard_of(hash, self.flushers),
                tombstone: Tombstone { hash, sequence },
                stats,
            },
        )
    }

    /// Check if there is an entry with the given hash.
    pub fn may_contains(&self, hash: u64) -> (contains: bool)
        requires
            self.wf(),
        ensures
            contains == (self.indexer.lookup(hash) is Some),
    {
        self.indexer.get(hash).is_some()
    }

    /// Start to load an entry: say what to read, unless there is no such entry, or reads of its
    /// block are throttled.
    pub fn load<C: FnOnce(BlockId) -> bool>(&self, hash: u64, is_read_throttled: C) -> (step:
        LoadStep)
        requires
            self.wf(),
            self.indexer.lookup(hash) matches Some(address) ==> {
                &&& address.fits()
                &&& address.block < self.block_manager.spec_blocks().len()
                &&& is_read_throttled.requires((address.block,))
            },
        ensures
            match self.indexer.lookup(hash) {
                None => step == LoadStep::Miss,
                Some(address) => {
                    ||| is_read_throttled.ensures((address.block,), true) && step
                        == LoadStep::Throttled
                    ||| is_read_throttled.ensures((address.block,), false) && step == LoadStep::Read {
                        block: address.block,
                        offset: address.offset as u64,
                        len: address.aligned_len() as usize,
                    }
                },
            },
            step is Miss <==> self.indexer.lookup(hash) is None,
            step matches LoadStep::Read { block, offset, len } ==> (self.indexer.lookup(
                hash,
            ) matches Some(address) && {
                &&& block == address.block
                &&& offset == address.offset
                &&& len % PAGE == 0
                &&& address.len <= len < address.len + PAGE
            }),
    {
        let address = match self.indexer.get(hash) {
            Some(address) => address,
            None => return LoadStep::Miss,
        };
        if is_read_throttled(address.block) {
            return LoadStep::Throttled;
        }
        proof {
            aligned_up_is_least(PAGE as int, address.len as int);
        }
        LoadStep::Read {
            block: address.block,
            offset: address.offset as u64,
            len: align_up(PAGE, address.len as usize),
        }
    }

    /// Go on with what was read: take the header from the front of it. An entry whose header cannot
    /// be read is forgotten, and `None` is returned.
    pub fn load_header(&mut self, hash: u64, buf: &[u8]) -> (r: Result<Option<EntryHeader>, Error>)
        requires
            old(self).wf(),
            buf@.len() >= 36,
        ensures
            final(self).wf(),
            match r {
                Ok(Some(header)) => {
                    &&& EntryHeader::parses_to(buf@.take(36), Ok(header))
                    &&& *final(self) == *old(self)
                },
                Ok(None) => {
                    &&& exists|e: Error| #[trigger] EntryHeader::parses_to(buf@.take(36), Err(e))
                    &&& forgot(*old(self), *final(self), hash)
                },
                Err(_) => false,
            },
            r matches Ok(None) ==> {
                &&& final(self).indexer.lookup(hash) is None
                &&& forall|other: u64|
                    other != hash ==> #[trigger] final(self).indexer.lookup(other) == old(
                        self,
                    ).indexer.lookup(other)
            },
    {
        assert(buf@.len() == buf.len());
        let head = slice_subrange(buf, 0, EntryHeader::serialized_len());
        assert(head@ =~= buf@.take(36));
        match EntryHeader::read(head) {
            Ok(header) => Ok(Some(header)),
            Err(e) => match e.kind() {
                ErrorKind::Parse
                | ErrorKind::MagicMismatch
                | ErrorKind::ChecksumMismatch
                | ErrorKind::OutOfRange => {
                    self.indexer.remove(hash);
                    Ok(None)
                },
                _ => Err(e),
            },
        }
    }

    /// Go on with what was read: take the header from the front of it, and check that all of the
    /// entry is there and has the checksum that the header states. An entry that is not intact is
    /// never handed out: it is forgotten, and `None` is returned.
    pub fn load_checked(&mut self, hash: u64, buf: &[u8]) -> (r: Result<Option<EntryHeader>, Error>)
        requires
            old(self).wf(),
            buf@.len() >= 36,
        ensures
            final(self).wf(),
            match r {
                Ok(Some(header)) => {
                    &&& header.leads(buf@)
                    &&& *final(self) == *old(self)
                },
                Ok(None) => {
                    &&& forall|header: EntryHeader| !#[trigger] header.leads(buf@)
                    &&& forgot(*old(self), *final(self), hash)
                },
                Err(_) => false,
            },
            r matches Ok(Some(header)) ==> {
                let end = 36 + header.key_len + header.value_len;
                &&& EntryHeader::parses_to(buf@.take(36), Ok(header))
                &&& end <= buf@.len()
                &&& header.checksum == xxh64(CHECKSUM_SEED, covered(buf@, end))
            },
            forall|header: EntryHeader| #[trigger]
                EntryHeader::parses_to(buf@.take(36), Ok(header)) ==> {
                    let end = 36 + header.key_len + header.value_len;
                    r == if end <= buf@.len() && header.checksum == xxh64(
                        CHECKSUM_SEED,
                        covered(buf@, end),
                    ) {
                        Ok::<Option<EntryHeader>, Error>(Some(header))
                    } else {
                        Ok::<Option<EntryHeader>, Error>(None)
                    }
                },
            r matches Ok(None) ==> {
                &&& final(self).indexer.lookup(hash) is None
                &&& forall|other: u64|
                    other != hash ==> #[trigger] final(self).indexer.lookup(other) == old(
                        self,
                    ).indexer.lookup(other)
            },
    {
        let ghost head = buf@.take(36);
        let header = match self.load_header(hash, buf)? {
            Some(header) => header,
            None => {
                proof {
                    let e = choose|e: Error| #[trigger] EntryHeader::parses_to(head, Err(e));
                    assert forall|h: EntryHeader| !#[trigger] h.leads(buf@) by {
                        if h.leads(buf@) {
                            read_is_determined(head, h, Err(e));
                        }
                    }
                    assert forall|h: EntryHeader| !#[trigger] EntryHeader::parses_to(
                        head,
                        Ok(h),
                    ) by {
                        if EntryHeader::parses_to(head, Ok(h)) {
                            read_is_determined(head, h, Err(e));
                        }
                    }
                }
                return Ok(None);
            },
        };
        proof {
            assert forall|h: EntryHeader| #[trigger] EntryHeader::parses_to(head, Ok(h)) implies h
                == header by {
                read_is_determined(head, h, Ok(header));
            }
        }
        match header.verify(buf) {
            Ok(_) => Ok(Some(header)),
            Err(_) => {
                self.indexer.remove(hash);
                proof {
                    assert forall|h: EntryHeader| !#[trigger] h.leads(buf@) by {
                        if h.leads(buf@) {
                            read_is_determined(head, h, Ok(header));
                        }
                    }
                }
                Ok(None)
            },
        }
    }

    /// Finish to load an entry, with what became of the rest that was read. A broken entry is
    /// forgotten. Any other error is handed on.
    pub fn load_entry<T>(&mut self, hash: u64, block: BlockId, entry: Result<T, Error>) -> (r:
        Result<Load<T>, Error>)
        requires
            old(self).wf(),
            block < old(self).block_manager.spec_blocks().len(),
        ensures
            final(self).wf(),
            match entry {
                Ok(entry) => {
                    let statistics = old(self).block_manager.spec_blocks()[block as int].spec_statistics();
                    &&& r == Ok::<Load<T>, Error>(
                        Load::Entry {
                            entry,
                            age: if statistics.probation {
                                Age::Old
                            } else {
                                Age::Young
                            },
                        },
                    )
                    &&& *final(self) == *old(self)
                },
                Err(e) => if broken(e.spec_kind()) {
                    &&& r == Ok::<Load<T>, Error>(Load::Miss)
                    &&& forgot(*old(self), *final(self), hash)
                } else {
                    &&& r == Err::<Load<T>, Error>(e)
                    &&& *final(self) == *old(self)
                },
            },
            entry matches Err(e) ==> if e is MagicMismatch || e is ChecksumMismatch
                || e is OutOfRange {
                &&& r == Ok::<Load<T>, Error>(Load::Miss)
                &&& final(self).indexer.lookup(hash) is None
                &&& forall|other: u64|
                    other != hash ==> #[trigger] final(self).indexer.lookup(other) == old(
                        self,
                    ).indexer.lookup(other)
            } else {
                r == Err::<Load<T>, Error>(e) && *final(self) == *old(self)
            },
    {
        match entry {
            Ok(entry) => {
                let age = if self.block_manager.block(block).statistics().probation {
                    Age::Old
                } else {
                    Age::Young
                };
                Ok(Load::Entry { entry, age })
            },
            Err(e) => match e.kind() {
                ErrorKind::MagicMismatch
                | ErrorKind::ChecksumMismatch
                | ErrorKind::OutOfRange => {
                    self.indexer.remove(hash);
                    Ok(Load::Miss)
                },
                _ => Err(e),
            },
        }
    }

    /// Start to destroy the engine. Returns the deletion to submit, whose sequence makes all
    /// deletions before it obsolete. The writes are to be waited for before the engine is cleared.
    pub fn destroy(&mut self) -> (r: Result<Deletion, Error>)
        requires
            old(self).wf(),
        ensures
            final(self).wf(),
            if old(self).active {
                &&& r == Ok::<Deletion, Error>(
                    Deletion {
                        flusher: 0,
                        tombstone: Tombstone { hash: 0, sequence: old(self).sequence },
                        stats: None,
                    },
                )
                &&& *final(self) == BlockEngine {
                    sequence: following_sequence(old(self).sequence),
                    ..*old(self)
                }
            } else {
                &&& r == Err::<Deletion, Error>(Error::Closed)
                &&& *final(self) == *old(self)
            },
    {
        if !self.active {
            return Err(Error::Closed);
        }
        let sequence: Sequence = self.next_sequence();
        Ok(Deletion { flusher: 0, tombstone: Tombstone { hash: 0, sequence }, stats: None })
    }

    /// Forget all entries. This is for after the latest write: otherwise its entries would stay.
    /// Returns the blocks to clean: all of them.
    pub fn clear(&mut self) -> (blocks: Vec<BlockId>)
        requires
            old(self).wf(),
        ensures
            final(self).wf(),
            *final(self) == (BlockEngine { indexer: final(self).indexer, ..*old(self) }),
            final(self).indexer@ == Map::<u64, Index>::empty(),
            final(self).indexer.spec_shards() == old(self).indexer.spec_shards(),
            blocks@ == Seq::new(
                old(self).block_manager.spec_blocks().len(),
                |i: int| i as BlockId,
            ),
    {
        self.indexer.clear();
        let n: usize = self.block_manager.blocks();
        let mut blocks: Vec<BlockId> = Vec::new();
        let mut i: usize = 0;
        while i < n
            invariant
                n == self.block_manager.spec_blocks().len(),
                n <= u32::MAX,
                i <= n,
                blocks@ == Seq::new(i as nat, |j: int| j as BlockId),
            decreases n - i,
        {
            blocks.push(i as BlockId);
            i = i + 1;
            assert(blocks@ =~= Seq::new(i as nat, |j: int| j as BlockId));
        }
        blocks
    }

    /// The least number of blocks that the engine works with.
    pub open spec fn min_blocks(self) -> nat {
        let total = self.block_manager.spec_blocks().len();
        if self.clean_block_threshold < total {
            self.clean_block_threshold as nat + 1
        } else {
            total
        }
    }

    /// The number of blocks to use out of `target_bytes`: a whole number of them, not less than the
    /// engine needs, and not more than there are.
    pub open spec fn target_blocks(self, target_bytes: u64) -> nat {
        let total = self.block_manager.spec_blocks().len();
        let wanted = target_bytes as nat / self.block_size as nat;
        if wanted < self.min_blocks() {
            self.min_blocks()
        } else if wanted > total {
            total
        } else {
            wanted
        }
    }

    /// Decide how to resize the part of the disk that is in use.
    ///
    /// The blocks behind the new end go out of use before the device is cut off, see
    /// [`BlockEngine::retire`], and the device is extended before blocks come into use again, see
    /// [`BlockEngine::extended`]. Otherwise a write could land behind the end of the device.
    pub fn resize_disk(&self, target_bytes: u64) -> (resize: Resize)
        requires
            self.wf(),
        ensures
            ({
                let target = self.target_blocks(target_bytes);
                let active = self.block_manager@.active;
                let len = (target * self.block_size) as u64;
                resize == if target < active {
                    Resize::Shrink { count: (active - target) as usize, len }
                } else if target > active {
                    Resize::Grow { count: (target - active) as usize, len }
                } else {
                    Resize::Keep { len }
                }
            }),
            self.target_blocks(target_bytes) * self.block_size <= usize::MAX,
            resize matches Resize::Shrink { count, len } ==> {
                &&& count <= self.block_manager@.active
                &&& len == (self.block_manager@.active - count) * self.block_size
            },
            resize matches Resize::Grow { count, len } ==> {
                &&& self.block_manager@.active + count <= self.block_manager.spec_blocks().len()
                &&& len == (self.block_manager@.active + count) * self.block_size
            },
            ({
                let active = self.block_manager@.active as int;
                let total = self.block_manager.spec_blocks().len() as int;
                let threshold = self.clean_block_threshold as int;
                let wanted = target_bytes as int / self.block_size as int;
                let (in_use, len) = match resize {
                    Resize::Keep { len } => (active, len),
                    Resize::Shrink { count, len } => (active - count, len),
                    Resize::Grow { count, len } => (active + count, len),
                };
                &&& len == in_use * self.block_size
                &&& resize matches Resize::Shrink { count, .. } ==> count > 0
                &&& resize matches Resize::Grow { count, .. } ==> count > 0
                &&& in_use <= total
                &&& threshold < in_use || in_use == total
                &&& threshold < wanted <= total ==> in_use == wanted
                &&& wanted > total ==> in_use == total
                &&& wanted <= threshold < total ==> in_use == threshold + 1
            }),
    {
        let block_size: u64 = self.block_size as u64;
        let total: usize = self.block_manager.blocks();
        let min: usize = if self.clean_block_threshold < total {
            self.clean_block_threshold + 1
        } else {
            total
        };
        let wanted: u64 = target_bytes / block_size;
        let target: usize = if wanted < min as u64 {
            min
        } else if wanted > total as u64 {
            total
        } else {
            wanted as usize
        };
        let active: usize = total - self.block_manager.retired_count();
        assert(target == self.target_blocks(target_bytes));
        assert(target * self.block_size <= total * self.block_size) by (nonlinear_arith)
            requires
                target <= total,
        ;
        let len: u64 = (target * self.block_size) as u64;
        if target < active {
            Resize::Shrink { count: active - target, len }
        } else if target > active {
            Resize::Grow { count: target - active, len }
        } else {
            Resize::Keep { len }
        }
    }

    /// Take the last `count` blocks in use out of use, to shrink the disk. The flushers must have
    /// let go of their blocks: a block that waits for entries never becomes evictable.
    ///
    /// Returns the blocks to clean, and whether the blocks are out of use already. Otherwise the
    /// waiter is woken when they are.
    pub fn retire(&mut self, count: usize, waiter: R) -> (r: (Vec<BlockId>, bool))
        requires
            old(self).wf(),
            count <= old(self).block_manager@.active,
        ensures
            final(self).wf(),
            *final(self) == (BlockEngine {
                block_manager: final(self).block_manager,
                ..*old(self)
            }),
            final(self).block_manager.same_config(old(self).block_manager),
            ({
                let before = old(self).block_manager;
                let after = final(self).block_manager@;
                &&& r.1 == after.settled()
                &&& after.retire_waiters == if r.1 {
                    before@.retire_waiters
                } else {
                    before@.retire_waiters.push(waiter)
                }
                &&& retirement(
                    before.spec_blocks(),
                    before.spec_clean_block_threshold(),
                    before.spec_reclaim_concurrency(),
                    retired(before@, (before@.active - count) as nat),
                    State { retire_waiters: before@.retire_waiters, ..after },
                    r.0@,
                )
                &&& before.spec_reclaim_concurrency() > 0 ==> driven(
                    after,
                    before.spec_clean_block_threshold(),
                )
            }),
            ({
                let n = old(self).block_manager.spec_blocks().len();
                let after = final(self).block_manager@;
                old(self).block_manager@.partitioned(n) ==> after.partitioned(n)
            }),
    {
        self.block_manager.retire_tail(count, waiter)
    }

    /// Check if the device may be cut off at `len`: the blocks in use lie before it, and no block
    /// behind them is written or cleaned. The blocks are taken to start at the front of the device;
    /// behind a tombstone log on the same device they end later than that.
    pub fn may_truncate(&self, len: u64) -> (may: bool)
        requires
            self.wf(),
        ensures
            may == (self.block_manager@.settled() && self.block_manager@.active * self.block_size
                <= len),
    {
        let total: usize = self.block_manager.blocks();
        let active: usize = total - self.block_manager.retired_count();
        assert(active * self.block_size <= total * self.block_size) by (nonlinear_arith)
            requires
                active <= total,
        ;
        self.block_manager.is_settled() && (active * self.block_size) as u64 <= len
    }

    /// Finish to shrink the disk, given what became of cutting the device off at `len`. Returns the
    /// size of the disk that is in use.
    pub fn truncated(&self, len: u64, truncation: Result<(), Error>) -> (r: Result<u64, Error>)
        ensures
            r == match truncation {
                Ok(_) => Ok::<u64, Error>(len),
                Err(e) => Err::<u64, Error>(e),
            },
    {
        match truncation {
            Ok(_) => Ok(len),
            Err(e) => Err(e),
        }
    }

    /// Take `count` blocks into use again, if the device was extended to `len`. Returns the size of
    /// the disk that is in use, and who waited for a shrink that is complete now. The writers that
    /// wait for a block can be served then, see [`BlockManager::serve_waiter`].
    pub fn extended(&mut self, count: usize, len: u64, extension: Result<(), Error>) -> (r: Result<
        (u64, Vec<R>),
        Error,
    >)
        requires
            old(self).wf(),
            old(self).block_manager@.active + count
                <= old(self).block_manager.spec_blocks().len(),
        ensures
            final(self).wf(),
            match extension {
                Ok(_) => {
                    let s = old(self).block_manager@;
                    let n = old(self).block_manager.spec_blocks().len();
                    let after = restored(s, s.active + count as nat);
                    &&& r matches Ok((size, woken)) && size == len && woken@ == if after.settled() {
                        after.retire_waiters
                    } else {
                        Seq::empty()
                    }
                    &&& *final(self) == BlockEngine {
                        block_manager: final(self).block_manager,
                        ..*old(self)
                    }
                    &&& final(self).block_manager.same_config(old(self).block_manager)
                    &&& final(self).block_manager@ == State {
                        retire_waiters: if after.settled() {
                            Seq::empty()
                        } else {
                            after.retire_waiters
                        },
                        ..after
                    }
                    &&& s.partitioned(n) ==> final(self).block_manager@.partitioned(n)
                },
                Err(e) => {
                    &&& r == Err::<(u64, Vec<R>), Error>(e)
                    &&& *final(self) == *old(self)
                },
            },
    {
        match extension {
            Ok(_) => {
                let woken = self.block_manager.restore_retired(count);
                Ok((len, woken))
            },
            Err(e) => Err(e),
        }
    }

    /// Close the engine: it takes no further writes and deletions.
    pub fn close(&mut self)
        ensures
            *final(self) == (BlockEngine { active: false, ..*old(self) }),
    {
        self.active = false;
    }
}

/// The sequence after a given one. After the highest one they start again.
pub open spec fn following_sequence(sequence: Sequence) -> Sequence {
    if sequence < u64::MAX {
        (sequence + 1) as Sequence
    } else {
        0
    }
}

/// `after` is `before` without the live entry with the given hash.
pub open spec fn forgot<D: Device, F, E: EvictionPicker<D::Part>, W, R>(
    before: BlockEngine<D, F, E, W, R>,
    after: BlockEngine<D, F, E, W, R>,
    hash: u64,
) -> bool {
    &&& after == BlockEngine { indexer: after.indexer, ..before }
    &&& after.indexer.spec_shards() == before.indexer.spec_shards()
    &&& after.indexer@ == if before.indexer.lookup(hash) is Some {
        before.indexer@.remove(hash)
    } else {
        before.indexer@
    }
}

/// The kinds of errors that say that an entry is broken, rather than that it could not be read.
pub open spec fn broken(kind: ErrorKind) -> bool {
    kind == ErrorKind::MagicMismatch || kind == ErrorKind::ChecksumMismatch || kind
        == ErrorKind::OutOfRange
}

impl EntryAddress {
    /// How much is read to load the entry.
    pub open spec fn aligned_len(self) -> int {
        aligned_up(PAGE as int, self.len as int)
    }

    /// The entry can be held in memory.
    pub open spec fn fits(self) -> bool {
        self.aligned_len() <= usize::MAX
    }
}

/// The age of an entry.
#[derive(Debug, Clone, Copy, PartialEq, Eq, Structural)]
pub enum Age {
    /// The entry has not been written yet.
    Fresh,
    /// The entry was written not long ago.
    Young,
    /// The block of the entry is about to be evicted.
    Old,
}

/// What became of the write of an entry.
#[derive(Debug, Clone, Copy, PartialEq, Eq)]
pub enum Enqueued {
    /// The engine was closed.
    Closed,
    /// The entry is still on disk.
    Young,
    /// The submit queue is too large.
    Overflow,
    /// The entry is to be submitted to the given flusher.
    Submitted { flusher: usize, sequence: Sequence },
}

/// What became invalid in a block.
#[derive(Debug, Clone, Copy, PartialEq, Eq)]
pub struct InvalidStats {
    pub block: BlockId,
    pub size: usize,
}

/// A deletion, which is to be submitted to the given flusher.
#[derive(Debug, Clone, Copy, PartialEq, Eq)]
pub struct Deletion {
    pub flusher: usize,
    pub tombstone: Tombstone,
    pub stats: Option<InvalidStats>,
}

/// How to resize the part of the disk that is in use. `len` is its new size in bytes.
#[derive(Debug, Clone, Copy, PartialEq, Eq)]
pub enum Resize {
    /// It has that size.
    Keep { len: u64 },
    /// Take the last `count` blocks out of use, then cut the device off.
    Shrink { count: usize, len: u64 },
    /// Extend the device, then take `count` blocks into use.
    Grow { count: usize, len: u64 },
}

/// What to do to load an entry.
#[derive(Debug, Clone, Copy, PartialEq, Eq)]
pub enum LoadStep {
    /// There is no such entry.
    Miss,
    /// Reads are throttled.
    Throttled,
    /// Read `len` bytes of the block from `offset` on.
    Read { block: BlockId, offset: u64, len: usize },
}

/// What became of the load of an entry.
#[derive(Debug, PartialEq, Eq)]
pub enum Load<T> {
    /// There is no such entry.
    Miss,
    /// Reads are throttled.
    Throttled,
    /// The entry was loaded.
    Entry { entry: T, age: Age },
}

/// On a device of a given length a block is in use exactly if all of it lies before the end. On one
/// that cannot be resized all of them are.
pub proof fn blocks_in_use_lie_on_the_device(blocks: nat, block_size: nat, len: u64, block: nat)
    requires
        block_size > 0,
    ensures
        block < backed_blocks(blocks, block_size, Some(len)) <==> block < blocks && (block + 1)
            * block_size <= len,
        backed_blocks(blocks, block_size, None) == blocks,
{
    let size = block_size as int;
    let l = len as int;
    let q = l / size;
    vstd::arithmetic::div_mod::lemma_fundamental_div_mod(l, size);
    vstd::arithmetic::div_mod::lemma_mod_bound(l, size);
    assert(size * q == q * size) by (nonlinear_arith);
    if block < q {
        assert((block + 1) * size <= q * size) by (nonlinear_arith)
            requires
                block + 1 <= q,
                size > 0,
        ;
    } else {
        assert((block + 1) * size >= q * size + size) by (nonlinear_arith)
            requires
                block >= q,
                size > 0,
        ;
    }
}

/// A device that is as long as some of its blocks has exactly these in use.
pub proof fn whole_blocks_are_in_use(blocks: nat, block_size: nat, len: u64, count: nat)
    requires
        block_size > 0,
        len == count * block_size,
        count <= blocks,
    ensures
        backed_blocks(blocks, block_size, Some(len)) == count,
{
    let backed = backed_blocks(blocks, block_size, Some(len));
    blocks_in_use_lie_on_the_device(blocks, block_size, len, backed);
    blocks_in_use_lie_on_the_device(blocks, block_size, len, count);
    if backed < count {
        assert((backed + 1) * block_size <= count * block_size) by (nonlinear_arith)
            requires
                backed + 1 <= count,
        ;
    }
    if count < backed {
        assert((count + 1) * block_size == count * block_size + block_size) by (nonlinear_arith);
    }
}

/// A disk that was resized comes back with the same blocks in use when it is opened again.
pub proof fn resize_outlasts_restart<D: Device, F, E: EvictionPicker<D::Part>, W, R>(
    engine: BlockEngine<D, F, E, W, R>,
    target_bytes: u64,
    len: u64,
)
    requires
        engine.wf(),
        len == engine.target_blocks(target_bytes) * engine.block_size,
    ensures
        backed_blocks(
            engine.block_manager.spec_blocks().len(),
            engine.block_size as nat,
            Some(len),
        ) == engine.target_blocks(target_bytes),
{
    resize_keeps_enough_blocks(engine, target_bytes);
    whole_blocks_are_in_use(
        engine.block_manager.spec_blocks().len(),
        engine.block_size as nat,
        len,
        engine.target_blocks(target_bytes),
    );
}

/// After a resize there are more blocks in use than are kept clean, or all blocks are in use. As long
/// as that holds, and there are so many blocks, as many are in use as the wanted bytes hold whole ones.
pub proof fn resize_keeps_enough_blocks<D: Device, F, E: EvictionPicker<D::Part>, W, R>(
    engine: BlockEngine<D, F, E, W, R>,
    target_bytes: u64,
)
    requires
        engine.wf(),
    ensures
        ({
            let total = engine.block_manager.spec_blocks().len();
            let in_use = engine.target_blocks(target_bytes);
            let threshold = engine.clean_block_threshold;
            let size = engine.block_size;
            &&& in_use <= total
            &&& threshold < in_use || in_use == total
            &&& in_use * size <= target_bytes < (in_use + 1) * size || in_use == total || in_use
                == threshold + 1
            &&& target_bytes < in_use * size ==> in_use <= threshold + 1
            &&& target_bytes >= (in_use + 1) * size ==> in_use == total
        }),
{
    let size = engine.block_size as int;
    let bytes = target_bytes as int;
    let in_use = engine.target_blocks(target_bytes) as int;
    let q = bytes / size;
    vstd::arithmetic::div_mod::lemma_fundamental_div_mod(bytes, size);
    vstd::arithmetic::div_mod::lemma_mod_bound(bytes, size);
    assert(size * q == q * size) by (nonlinear_arith);
    assert((q + 1) * size == q * size + size) by (nonlinear_arith);
    assert((in_use + 1) * size == in_use * size + size) by (nonlinear_arith);
    if in_use > q {
        assert(in_use * size >= (q + 1) * size) by (nonlinear_arith)
            requires
                in_use >= q + 1,
                size > 0,
        ;
    } else if in_use < q {
        assert((in_use + 1) * size <= q * size) by (nonlinear_arith)
            requires
                in_use + 1 <= q,
                size > 0,
        ;
    }
}

/// Who asks for more gets no less.
pub proof fn resize_is_monotonic<D: Device, F, E: EvictionPicker<D::Part>, W, R>(
    engine: BlockEngine<D, F, E, W, R>,
    less: u64,
    more: u64,
)
    requires
        engine.wf(),
        less <= more,
    ensures
        engine.target_blocks(less) <= engine.target_blocks(more),
{
    vstd::arithmetic::div_mod::lemma_div_is_ordered(
        less as int,
        more as int,
        engine.block_size as int,
    );
}

/// To forget an entry hides it, and nothing else: the other entries, and what is known of deletions,
/// stay as they are, and so does the rest of the engine.
pub proof fn forgetting_hides_one_entry<D: Device, F, E: EvictionPicker<D::Part>, W, R>(
    before: BlockEngine<D, F, E, W, R>,
    after: BlockEngine<D, F, E, W, R>,
    hash: u64,
    other: u64,
)
    requires
        forgot(before, after, hash),
    ensures
        after.indexer.lookup(hash) is None,
        other != hash ==> after.indexer.lookup(other) == before.indexer.lookup(other),
        after.indexer@.contains_key(other) ==> before.indexer@.contains_key(other)
            && after.indexer@[other] == before.indexer@[other],
        before.indexer@.contains_key(other) && before.indexer@[other] is Tombstone
            ==> after.indexer@.contains_key(other),
        after.block_manager == before.block_manager,
        after.device == before.device,
        after.sequence == before.sequence,
        after.active == before.active,
{
}

/// An entry is broken if its magic number, its checksum or its lengths are wrong. Any other error is
/// none of the entry.
pub proof fn broken_entries(e: Error)
    ensures
        broken(e.spec_kind()) <==> e is MagicMismatch || e is ChecksumMismatch || e is OutOfRange,
{
}

/// The sequences count the writes one by one.
pub proof fn sequences_count_up(sequence: Sequence)
    ensures
        sequence < u64::MAX ==> following_sequence(sequence) == sequence + 1,
        sequence == u64::MAX ==> following_sequence(sequence) == 0,
{
}

/// What is read to load an entry is all of it, in whole pages and not one more than needed.
pub proof fn whole_pages_are_read(address: EntryAddress)
    ensures
        address.aligned_len() % PAGE as int == 0,
        address.len <= address.aligned_len() < address.len + PAGE,
{
    aligned_up_is_least(PAGE as int, address.len as int);
}

/// A device that refused the tombstone log was asked for it once, and is as it was.
pub proof fn refused_log_takes_nothing<D: Device>(before: D, after: D, size: usize, e: Error)
    requires
        refused_by(before, after, size, e),
    ensures
        after.spec_partitions() == before.spec_partitions(),
        after.requests() == before.requests().push(Request { size, refusal: Some(e) }),
{
    assert(before.requests() + refused(size, e) =~= before.requests().push(
        Request { size, refusal: Some(e) },
    ));
}

/// The tombstone log has a slot of a hash and a sequence for every page of the device, in whole pages
/// and not one more than needed.
pub proof fn tombstone_log_covers_the_device(capacity: nat)
    ensures
        ({
            let size = tombstone_log_size(capacity);
            let pages = size / PAGE as nat;
            &&& TOMBSTONE_SLOTS_PER_PAGE * 16 == PAGE
            &&& size == pages * PAGE
            &&& pages * TOMBSTONE_SLOTS_PER_PAGE >= capacity / PAGE as nat
            &&& pages > 0 ==> (pages - 1) * TOMBSTONE_SLOTS_PER_PAGE < capacity / PAGE as nat
        }),
{
}

/// The number of clean blocks to keep, and the size of the submit queue, are as configured. By default
/// they are the number of reclaimers, and twice the size of the buffer pool.
pub proof fn thresholds_are_as_configured<D: Device, F, E: EvictionPicker<D::Part>>(
    config: BlockEngineConfig<D, F, E>,
    threshold: usize,
)
    ensures
        config.clean_block_threshold == Some(threshold) ==> config.spec_clean_threshold()
            == threshold,
        config.clean_block_threshold is None ==> config.spec_clean_threshold()
            == config.reclaimers,
        config.submit_queue_size_threshold == Some(threshold) ==> config.spec_threshold()
            == threshold,
        config.submit_queue_size_threshold is None ==> config.spec_threshold()
            == config.buffer_pool_size + config.buffer_pool_size,
{
}

/// The disk in use stays between what the engine needs and what there is, and has as many bytes
/// as were asked for if they are whole blocks in between.
pub proof fn resize_stays_within_bounds<D: Device, F, E: EvictionPicker<D::Part>, W, R>(
    engine: BlockEngine<D, F, E, W, R>,
    target_bytes: u64,
)
    requires
        engine.wf(),
    ensures
        engine.min_blocks() <= engine.target_blocks(target_bytes)
            <= engine.block_manager.spec_blocks().len(),
        engine.min_blocks() <= target_bytes as nat / engine.block_size as nat
            <= engine.block_manager.spec_blocks().len() ==> engine.target_blocks(target_bytes)
            * engine.block_size <= target_bytes < (engine.target_blocks(target_bytes) + 1)
            * engine.block_size,
{
    let size = engine.block_size as int;
    let bytes = target_bytes as int;
    vstd::arithmetic::div_mod::lemma_fundamental_div_mod(bytes, size);
    vstd::arithmetic::div_mod::lemma_mod_bound(bytes, size);
    let q = bytes / size;
    assert(size * q == q * size) by (nonlinear_arith);
    assert((q + 1) * size == q * size + size) by (nonlinear_arith);
}

/// A device that is cut off where it may be loses no block that is in any state: one that ends
/// behind the cut is neither clean nor does it hold data, and it is neither written nor cleaned.
/// The blocks are taken to start at the front of the device; behind a tombstone log on the same
/// device they end later than that.
pub proof fn truncation_spares_blocks_in_use<E, W, R>(
    s: State<E, W, R>,
    blocks: nat,
    block_size: nat,
    len: nat,
    block: BlockId,
)
    requires
        s.partitioned(blocks),
        s.settled(),
        s.active * block_size <= len,
        len < (block + 1) * block_size,
    ensures
        s.count(block) == 0,
{
    assert(s.active <= block) by (nonlinear_arith)
        requires
            s.active * block_size < (block + 1) * block_size,
    ;
    retired_blocks_are_idle(s, blocks, block);
}

} // verus!
