//! The states of the blocks of a disk cache.

use crate::device::{no_space, Device, Partition, Request};
use crate::error::{Error, ErrorKind};
use crate::eviction::{EvictionInfo, EvictionPicker, PickerEvent, Seen};
use crate::indexer::BlockId;
use std::collections::{HashSet, VecDeque};
use std::sync::Arc;
use vstd::prelude::*;

verus! {

broadcast use vstd::std_specs::hash::group_hash_axioms;

/// Block statistics.
#[derive(Debug, Clone, Copy, PartialEq, Eq)]
pub struct BlockStatistics {
    /// Estimated invalid bytes in the block.
    pub invalid: usize,
    /// Access count of the block.
    pub access: usize,
    /// Marked as `true` if the block is about to be evicted by some eviction picker.
    pub probation: bool,
}

impl BlockStatistics {
    /// The statistics of a fresh block.
    pub open spec fn zero() -> BlockStatistics {
        BlockStatistics { invalid: 0, access: 0, probation: false }
    }

    /// Forget everything.
    pub fn reset(&mut self)
        ensures
            *final(self) == BlockStatistics::zero(),
            final(self).invalid == 0,
            final(self).access == 0,
            !final(self).probation,
    {
        self.invalid = 0;
        self.access = 0;
        self.probation = false;
    }
}

impl Default for BlockStatistics {
    fn default() -> (statistics: BlockStatistics)
        ensures
            statistics == BlockStatistics::zero(),
            statistics.invalid == 0,
            statistics.access == 0,
            !statistics.probation,
    {
        BlockStatistics { invalid: 0, access: 0, probation: false }
    }
}

/// A block is a logical partition of a device. It is used to manage the device's storage space.
pub struct Block<P: Partition> {
    id: BlockId,
    partition: Arc<P>,
    statistics: BlockStatistics,
}

impl<P: Partition> Block<P> {
    pub closed spec fn spec_id(self) -> BlockId {
        self.id
    }

    pub closed spec fn spec_partition(self) -> Arc<P> {
        self.partition
    }

    pub closed spec fn spec_statistics(self) -> BlockStatistics {
        self.statistics
    }

    /// Get block id.
    pub fn id(&self) -> (id: BlockId)
        ensures
            id == self.spec_id(),
    {
        self.id
    }

    /// Get block Statistics.
    pub fn statistics(&self) -> (statistics: &BlockStatistics)
        ensures
            *statistics == self.spec_statistics(),
    {
        &self.statistics
    }

    /// Get block size.
    pub fn size(&self) -> (size: usize)
        ensures
            size == self.spec_partition().spec_size(),
    {
        self.partition.size()
    }

    /// Get the partition of the block.
    pub fn partition(&self) -> (partition: &Arc<P>)
        ensures
            *partition == self.spec_partition(),
    {
        &self.partition
    }

    /// Create a fresh block.
    pub fn new_for_test(id: BlockId, partition: Arc<P>) -> (block: Self)
        ensures
            block.spec_id() == id,
            block.spec_partition() == partition,
            block.spec_statistics() == BlockStatistics::zero(),
    {
        Block { id, partition, statistics: BlockStatistics::default() }
    }
}

/// The states of the blocks, and who is waiting for them.
#[verifier::ext_equal]
#[verifier::reject_recursive_types(E)]
#[verifier::reject_recursive_types(W)]
#[verifier::reject_recursive_types(R)]
pub struct State<E, W, R> {
    /// The blocks that can be written, in the order in which they will be.
    pub clean: Seq<BlockId>,
    /// The blocks that hold data.
    pub evictable: Set<BlockId>,
    /// The blocks that are being written.
    pub writing: Set<BlockId>,
    /// The blocks that are being cleaned.
    pub reclaiming: Set<BlockId>,
    /// The number of blocks in use. The blocks behind them are retired, or will be once they are
    /// written and cleaned.
    pub active: nat,
    /// Who is waiting for a clean block, latest last.
    pub clean_waiters: Seq<W>,
    /// Who is waiting for the end of cleaning.
    pub reclaim_waiters: Seq<R>,
    /// Who is waiting for the retirement of blocks.
    pub retire_waiters: Seq<R>,
    pub eviction_pickers: Seq<E>,
}

/// There is no block in the set from `active` on.
pub open spec fn none_behind(active: nat, blocks: Set<BlockId>) -> bool {
    forall|id: BlockId| active <= id ==> !(#[trigger] blocks.contains(id))
}

impl<E, W, R> State<E, W, R> {
    /// The state in which no block is clean or holds data, and nobody is waiting.
    pub open spec fn fresh(active: nat, eviction_pickers: Seq<E>) -> Self {
        State {
            clean: Seq::empty(),
            evictable: Set::empty(),
            writing: Set::empty(),
            reclaiming: Set::empty(),
            active,
            clean_waiters: Seq::empty(),
            reclaim_waiters: Seq::empty(),
            retire_waiters: Seq::empty(),
            eviction_pickers,
        }
    }

    /// Whether the retirement of the blocks behind those in use is complete.
    pub open spec fn settled(self) -> bool {
        &&& none_behind(self.active, self.evictable)
        &&& none_behind(self.active, self.writing)
        &&& none_behind(self.active, self.reclaiming)
    }

    /// In how many of the four states a block is.
    pub open spec fn count(self, id: BlockId) -> nat {
        (if self.clean.contains(id) {
            1nat
        } else {
            0
        }) + (if self.evictable.contains(id) {
            1nat
        } else {
            0
        }) + (if self.writing.contains(id) {
            1nat
        } else {
            0
        }) + (if self.reclaiming.contains(id) {
            1nat
        } else {
            0
        })
    }

    /// No block is leaked, and none is shared: out of `blocks` blocks every one in use is in
    /// exactly one state, and one behind them is in one at most, and not clean.
    pub open spec fn partitioned(self, blocks: nat) -> bool {
        &&& self.active <= blocks
        &&& self.clean.no_duplicates()
        &&& forall|id: BlockId| id < self.active ==> #[trigger] self.count(id) == 1
        &&& forall|id: BlockId|
            self.active <= id < blocks ==> #[trigger] self.count(id) <= 1 && !self.clean.contains(
                id,
            )
        &&& forall|id: BlockId| blocks <= id ==> #[trigger] self.count(id) == 0
    }
}

/// Every picker was told of the events, in their order.
pub open spec fn told<P: Partition, E: EvictionPicker<P>>(
    before: Seq<E>,
    after: Seq<E>,
    events: Seq<PickerEvent<P>>,
) -> bool {
    &&& before.len() == after.len()
    &&& forall|i: int|
        0 <= i < after.len() ==> (#[trigger] after[i]).history() == before[i].history() + events
}

/// The pickers were asked in their order, until one picked a block.
pub open spec fn consulted<P: Partition, E: EvictionPicker<P>>(
    before: Seq<E>,
    after: Seq<E>,
    seen: Seen<P>,
    picked: Option<BlockId>,
    last: int,
) -> bool {
    &&& before.len() == after.len()
    &&& 0 <= last <= after.len()
    &&& picked is Some <==> last < after.len()
    &&& forall|i: int|
        0 <= i < last ==> (#[trigger] after[i]).history() == before[i].history().push(
            PickerEvent::Asked { seen, picked: None },
        )
    &&& last < after.len() ==> after[last].history() == before[last].history().push(
        PickerEvent::Asked { seen, picked },
    )
    &&& forall|i: int| last < i < after.len() ==> #[trigger] after[i] == before[i]
}

/// What the pickers see of a state.
pub open spec fn seen_in<P: Partition, E, W, R>(blocks: Seq<Block<P>>, s: State<E, W, R>) -> Seen<
    P,
> {
    Seen { blocks, evictable: s.evictable, clean: s.clean.len() }
}

/// `after` is `before` with `block` evicted.
pub open spec fn evicted<P: Partition, E: EvictionPicker<P>, W, R>(
    blocks: Seq<Block<P>>,
    before: State<E, W, R>,
    after: State<E, W, R>,
    block: BlockId,
) -> bool {
    &&& after == State {
        evictable: before.evictable.remove(block),
        eviction_pickers: after.eviction_pickers,
        ..before
    }
    &&& told(
        before.eviction_pickers,
        after.eviction_pickers,
        seq![PickerEvent::Evicted { seen: seen_in(blocks, after), block }],
    )
}

/// `after` is `before` with a block evicted that the pickers have picked, or any if none has.
pub open spec fn eviction<P: Partition, E: EvictionPicker<P>, W, R>(
    blocks: Seq<Block<P>>,
    before: State<E, W, R>,
    after: State<E, W, R>,
    block: BlockId,
) -> bool {
    &&& before.evictable.contains(block)
    &&& exists|pickers: Seq<E>, picked: Option<BlockId>, last: int|
        {
            &&& #[trigger] consulted(
                before.eviction_pickers,
                pickers,
                seen_in(blocks, before),
                picked,
                last,
            )
            &&& picked is Some ==> picked == Some(block)
            &&& evicted(blocks, State { eviction_pickers: pickers, ..before }, after, block)
        }
}

/// The blocks that hold data and are not in use, out of `blocks` blocks.
pub open spec fn evictable_tail<E, W, R>(s: State<E, W, R>, blocks: nat) -> Seq<BlockId> {
    ids_with(s.active, blocks, |id: BlockId| s.evictable.contains(id))
}

/// `after` is `before` with the cleaning of a block started, if another block may be cleaned: the
/// first one that holds data and is not in use, or if there are too few clean blocks any other one
/// that holds data.
pub open spec fn reclaim_started<P: Partition, E: EvictionPicker<P>, W, R>(
    blocks: Seq<Block<P>>,
    clean_block_threshold: usize,
    reclaim_concurrency: usize,
    before: State<E, W, R>,
    after: State<E, W, R>,
    reclaim: Option<BlockId>,
) -> bool {
    let tail = evictable_tail(before, blocks.len());
    let needed = before.clean.len() < clean_block_threshold && before.evictable != Set::<
        BlockId,
    >::empty();
    if before.reclaiming.len() < reclaim_concurrency && (tail.len() > 0 || needed) {
        &&& reclaim matches Some(block)
        &&& after.reclaiming == before.reclaiming.insert(block)
        &&& if tail.len() > 0 {
            &&& block == tail[0]
            &&& evicted(blocks, before, State { reclaiming: before.reclaiming, ..after }, block)
        } else {
            eviction(blocks, before, State { reclaiming: before.reclaiming, ..after }, block)
        }
    } else {
        after == before && reclaim is None
    }
}

/// `after` is `before` with the cleaning started of the first blocks that hold data and are not in
/// use, as many of them as may be cleaned at the same time.
pub open spec fn drained<P: Partition, E: EvictionPicker<P>, W, R>(
    blocks: Seq<Block<P>>,
    reclaim_concurrency: usize,
    before: State<E, W, R>,
    after: State<E, W, R>,
    started: Seq<BlockId>,
) -> bool {
    let tail = evictable_tail(before, blocks.len());
    &&& started.len() <= tail.len()
    &&& started == tail.take(started.len() as int)
    &&& forall|k: int|
        0 <= k < started.len() ==> (#[trigger] before.reclaiming.union(
            started.take(k).to_set(),
        )).len() < reclaim_concurrency
    &&& started.len() < tail.len() ==> after.reclaiming.len() >= reclaim_concurrency
    &&& after == State {
        evictable: before.evictable.difference(started.to_set()),
        reclaiming: before.reclaiming.union(started.to_set()),
        eviction_pickers: after.eviction_pickers,
        ..before
    }
    &&& told(
        before.eviction_pickers,
        after.eviction_pickers,
        evict_events(blocks, before.evictable, before.clean.len(), started),
    )
}

/// `after` is `before` with blocks that are not in use, and one more if it is needed, being cleaned.
pub open spec fn retirement<P: Partition, E: EvictionPicker<P>, W, R>(
    blocks: Seq<Block<P>>,
    clean_block_threshold: usize,
    reclaim_concurrency: usize,
    before: State<E, W, R>,
    after: State<E, W, R>,
    reclaim: Seq<BlockId>,
) -> bool {
    exists|started: Seq<BlockId>, mid: State<E, W, R>, next: Option<BlockId>|
        {
            &&& #[trigger] drained(blocks, reclaim_concurrency, before, mid, started)
            &&& #[trigger] reclaim_started(
                blocks,
                clean_block_threshold,
                reclaim_concurrency,
                mid,
                after,
                next,
            )
            &&& reclaim == started + also(next)
        }
}

/// The optional block as a sequence.
pub open spec fn also(block: Option<BlockId>) -> Seq<BlockId> {
    match block {
        Some(block) => seq![block],
        None => Seq::empty(),
    }
}

/// Something happens, or nothing is needed: a block is cleaned, or there are enough clean blocks,
/// or none holds data.
pub open spec fn driven<E, W, R>(s: State<E, W, R>, clean_block_threshold: usize) -> bool {
    ||| s.reclaiming != Set::<BlockId>::empty()
    ||| s.clean.len() >= clean_block_threshold
    ||| s.evictable == Set::<BlockId>::empty()
}

/// The state after a cleaned block was handed out: to nobody if it retires, else to the latest
/// waiter if there is one and it takes the block, else to the clean blocks.
pub open spec fn handed_out<E, W, R>(
    s: State<E, W, R>,
    block: BlockId,
    delivered: bool,
) -> State<E, W, R> {
    let s = State { reclaiming: s.reclaiming.remove(block), ..s };
    if block >= s.active {
        s
    } else if s.clean_waiters.len() == 0 {
        State { clean: s.clean.push(block), ..s }
    } else {
        let s = State { clean_waiters: s.clean_waiters.drop_last(), ..s };
        if delivered {
            State { writing: s.writing.insert(block), ..s }
        } else {
            State { clean: s.clean.push(block), ..s }
        }
    }
}

/// Who is to be woken in a state: those that wait for the end of cleaning, if no block is being
/// cleaned, and those that wait for the retirement of blocks, if it is complete.
pub open spec fn waking<E, W, R>(s: State<E, W, R>) -> Seq<R> {
    (if s.reclaiming == Set::<BlockId>::empty() {
        s.reclaim_waiters
    } else {
        Seq::empty()
    }) + (if s.settled() {
        s.retire_waiters
    } else {
        Seq::empty()
    })
}

/// The state after everybody was woken.
pub open spec fn woken_up<E, W, R>(s: State<E, W, R>) -> State<E, W, R> {
    State {
        reclaim_waiters: if s.reclaiming == Set::<BlockId>::empty() {
            Seq::empty()
        } else {
            s.reclaim_waiters
        },
        retire_waiters: if s.settled() {
            Seq::empty()
        } else {
            s.retire_waiters
        },
        ..s
    }
}

/// The ids in `from..to` with the given property, in ascending order.
pub open spec fn ids_with(from: nat, to: nat, keep: spec_fn(BlockId) -> bool) -> Seq<BlockId>
    decreases to,
{
    if to <= from {
        Seq::empty()
    } else {
        let rest = ids_with(from, (to - 1) as nat, keep);
        let id = (to - 1) as BlockId;
        if keep(id) {
            rest.push(id)
        } else {
            rest
        }
    }
}

/// The ids are those in the range with the property, and there is none twice.
pub proof fn ids_with_members(from: nat, to: nat, keep: spec_fn(BlockId) -> bool)
    requires
        to <= u32::MAX,
    ensures
        forall|id: BlockId| #[trigger]
            ids_with(from, to, keep).contains(id) <==> from <= id < to && keep(id),
        forall|i: int| 0 <= i < ids_with(from, to, keep).len() ==> {
            let id = #[trigger] ids_with(from, to, keep)[i];
            from <= id < to && keep(id)
        },
        ids_with(from, to, keep).no_duplicates(),
    decreases to,
{
    let ids = ids_with(from, to, keep);
    if to > from {
        let last = (to - 1) as BlockId;
        let rest = ids_with(from, (to - 1) as nat, keep);
        ids_with_members(from, (to - 1) as nat, keep);
        assert forall|i: int| 0 <= i < ids.len() implies {
            let id = #[trigger] ids[i];
            from <= id < to && keep(id)
        } by {
            if i < rest.len() {
                assert(ids[i] == rest[i]);
            }
        }
        assert forall|id: BlockId| from <= id < to && keep(id) implies #[trigger] ids.contains(
            id,
        ) by {
            if id == last {
                assert(ids[ids.len() - 1] == id);
            } else {
                assert(rest.contains(id));
                let j = choose|j: int| 0 <= j < rest.len() && rest[j] == id;
                assert(ids[j] == id);
            }
        }
    }
}

/// The ids come in ascending order.
pub proof fn ids_with_ascend(from: nat, to: nat, keep: spec_fn(BlockId) -> bool)
    requires
        to <= u32::MAX,
    ensures
        forall|i: int, j: int|
            0 <= i < j < ids_with(from, to, keep).len() ==> ids_with(from, to, keep)[i] < ids_with(
                from,
                to,
                keep,
            )[j],
    decreases to,
{
    if to > from {
        let ids = ids_with(from, to, keep);
        let rest = ids_with(from, (to - 1) as nat, keep);
        ids_with_ascend(from, (to - 1) as nat, keep);
        ids_with_members(from, (to - 1) as nat, keep);
        assert forall|i: int, j: int| 0 <= i < j < ids.len() implies ids[i] < ids[j] by {
            assert(ids[i] == rest[i]);
            if j < rest.len() {
                assert(ids[j] == rest[j]);
            }
        }
    }
}

/// The events of blocks that become evictable one after the other, on top of those that are.
pub open spec fn evictable_events<P: Partition>(
    blocks: Seq<Block<P>>,
    evictable: Set<BlockId>,
    clean: nat,
    order: Seq<BlockId>,
) -> Seq<PickerEvent<P>> {
    Seq::new(
        order.len(),
        |i: int|
            PickerEvent::Evictable {
                seen: Seen {
                    blocks,
                    evictable: evictable.union(order.take(i + 1).to_set()),
                    clean,
                },
                block: order[i],
            },
    )
}

/// The events of blocks that are evicted one after the other.
pub open spec fn evict_events<P: Partition>(
    blocks: Seq<Block<P>>,
    evictable: Set<BlockId>,
    clean: nat,
    order: Seq<BlockId>,
) -> Seq<PickerEvent<P>> {
    Seq::new(
        order.len(),
        |i: int|
            PickerEvent::Evicted {
                seen: Seen {
                    blocks,
                    evictable: evictable.difference(order.take(i + 1).to_set()),
                    clean,
                },
                block: order[i],
            },
    )
}

/// The state after the blocks from `active` on went out of use: clean blocks retire at once.
pub open spec fn retired<E, W, R>(s: State<E, W, R>, active: nat) -> State<E, W, R> {
    State { active, clean: s.clean.filter(|id: BlockId| id < active), ..s }
}

/// The block neither holds data, nor is it written or cleaned.
pub open spec fn idle<E, W, R>(s: State<E, W, R>, id: BlockId) -> bool {
    !s.evictable.contains(id) && !s.writing.contains(id) && !s.reclaiming.contains(id)
}

/// The state after the blocks up to `active` came into use again: those that had retired are
/// clean, and the others go on as if they had been in use all the time.
pub open spec fn restored<E, W, R>(s: State<E, W, R>, active: nat) -> State<E, W, R> {
    State {
        active,
        clean: s.clean + ids_with(
            s.active,
            active,
            |id: BlockId| idle(s, id),
        ),
        ..s
    }
}

/// The requests of `n` partitions of the given size, all of them granted.
pub open spec fn granted(size: usize, n: nat) -> Seq<Request> {
    Seq::new(n, |i: int| Request { size, refusal: None })
}

/// A request of a partition of the given size that was refused.
pub open spec fn refused(size: usize, e: Error) -> Seq<Request> {
    seq![Request { size, refusal: Some(e) }]
}

/// `requests` are those that were `tried`, and one more of the given size that was refused for want
/// of space.
pub open spec fn ran_out(tried: Seq<Request>, requests: Seq<Request>, size: usize) -> bool {
    &&& requests == tried.push(requests.last())
    &&& requests.last().size == size
    &&& no_space(requests.last())
}

/// [`rand::seq::IteratorRandom::choose`] on the items of a set: any of them, or `None` only if
/// there are none. Which one is left to chance.
#[verifier::external_body]
fn choose_any(blocks: &HashSet<BlockId>) -> (block: Option<BlockId>)
    ensures
        block is None <==> blocks@ == Set::<BlockId>::empty(),
        block matches Some(id) ==> blocks@.contains(id),
{
    rand::seq::IteratorRandom::choose(blocks.iter(), &mut rand::rng()).copied()
}

/// `after` is `before` with the statistics of one block updated.
pub open spec fn updated<P: Partition>(
    before: Seq<Block<P>>,
    after: Seq<Block<P>>,
    id: BlockId,
    statistics: BlockStatistics,
) -> bool {
    &&& after.len() == before.len()
    &&& forall|i: int|
        0 <= i < before.len() ==> {
            &&& (#[trigger] after[i]).spec_id() == before[i].spec_id()
            &&& after[i].spec_partition() == before[i].spec_partition()
            &&& after[i].spec_statistics() == if i == id {
                statistics
            } else {
                before[i].spec_statistics()
            }
        }
}

/// The states of a block.
#[derive(Debug, Clone, Copy, PartialEq, Eq, Structural)]
pub enum BlockState {
    /// The block is empty.
    Clean,
    /// The block holds data.
    Evictable,
    /// The block is written.
    Writing,
    /// The block is cleaned.
    Reclaiming,
}

/// How many blocks are in each state.
#[derive(Debug, Clone, Copy, PartialEq, Eq)]
pub struct BlockCounts {
    pub clean: usize,
    pub evictable: usize,
    pub writing: usize,
    pub reclaiming: usize,
}

/// A block that was handed out, and another one whose cleaning is to be started.
pub struct Grant {
    pub block: BlockId,
    pub reclaim: Option<BlockId>,
}

/// What is to be done after a block was cleaned.
pub struct Reclaimed<R> {
    /// The block whose cleaning is to be started.
    pub reclaim: Option<BlockId>,
    /// Who is to be woken.
    pub woken: Vec<R>,
}

/// Manages the states of the blocks of a disk cache.
///
/// A block is clean, then it is written, then it is evictable, then it is cleaned again.
pub struct BlockManager<P: Partition, E: EvictionPicker<P>, W, R> {
    blocks: Vec<Block<P>>,
    clean_blocks: VecDeque<BlockId>,
    evictable_blocks: HashSet<BlockId>,
    writing_blocks: HashSet<BlockId>,
    reclaiming_blocks: HashSet<BlockId>,
    active_blocks: usize,
    clean_block_waiters: Vec<W>,
    reclaim_waiters: Vec<R>,
    retire_waiters: Vec<R>,
    eviction_pickers: Vec<E>,
    reclaim_concurrency: usize,
    clean_block_threshold: usize,
}

impl<P: Partition, E: EvictionPicker<P>, W, R> View for BlockManager<P, E, W, R> {
    type V = State<E, W, R>;

    closed spec fn view(&self) -> State<E, W, R> {
        State {
            clean: self.clean_blocks@,
            evictable: self.evictable_blocks@,
            writing: self.writing_blocks@,
            reclaiming: self.reclaiming_blocks@,
            active: self.active_blocks as nat,
            clean_waiters: self.clean_block_waiters@,
            reclaim_waiters: self.reclaim_waiters@,
            retire_waiters: self.retire_waiters@,
            eviction_pickers: self.eviction_pickers@,
        }
    }
}

impl<P: Partition, E: EvictionPicker<P>, W, R> BlockManager<P, E, W, R> {
    pub closed spec fn spec_blocks(self) -> Seq<Block<P>> {
        self.blocks@
    }

    pub closed spec fn spec_reclaim_concurrency(self) -> usize {
        self.reclaim_concurrency
    }

    pub closed spec fn spec_clean_block_threshold(self) -> usize {
        self.clean_block_threshold
    }

    /// The blocks are numbered in order, and the states speak of blocks that there are. A block
    /// that is not in use is not clean, and no more blocks are cleaned than allowed.
    pub open spec fn wf(self) -> bool {
        &&& self.spec_blocks().len() <= u32::MAX
        &&& self@.reclaiming.finite()
        &&& self@.reclaiming.len() <= self.spec_reclaim_concurrency()
        &&& forall|i: int|
            0 <= i < self.spec_blocks().len() ==> (#[trigger] self.spec_blocks()[i]).spec_id() == i
        &&& self@.active <= self.spec_blocks().len()
        &&& forall|i: int| 0 <= i < self@.clean.len() ==> (#[trigger] self@.clean[i]) < self@.active
        &&& forall|id: BlockId| #[trigger]
            self@.evictable.contains(id) ==> id < self.spec_blocks().len()
        &&& forall|id: BlockId| #[trigger]
            self@.writing.contains(id) ==> id < self.spec_blocks().len()
        &&& forall|id: BlockId| #[trigger]
            self@.reclaiming.contains(id) ==> id < self.spec_blocks().len()
    }

    /// What does not change: the blocks and the configuration.
    pub open spec fn same_config(self, other: Self) -> bool {
        &&& self.spec_blocks() == other.spec_blocks()
        &&& self.spec_reclaim_concurrency() == other.spec_reclaim_concurrency()
        &&& self.spec_clean_block_threshold() == other.spec_clean_block_threshold()
    }

    /// Tell every picker that a block became evictable.
    fn notify_evictable(&mut self, block: BlockId)
        ensures
            final(self).same_config(*old(self)),
            final(self)@ == (State {
                eviction_pickers: final(self)@.eviction_pickers,
                ..old(self)@
            }),
            told(
                old(self)@.eviction_pickers,
                final(self)@.eviction_pickers,
                seq![PickerEvent::Evictable {
                    seen: seen_in(old(self).spec_blocks(), old(self)@),
                    block,
                }],
            ),
    {
        let n: usize = self.eviction_pickers.len();
        let ghost event = PickerEvent::Evictable {
            seen: seen_in(old(self).spec_blocks(), old(self)@),
            block,
        };
        let mut i: usize = 0;
        while i < n
            invariant
                i <= n,
                n == self.eviction_pickers@.len(),
                n == old(self).eviction_pickers@.len(),
                self.same_config(*old(self)),
                self@ == (State { eviction_pickers: self@.eviction_pickers, ..old(self)@ }),
                event == (PickerEvent::<P>::Evictable {
                    seen: seen_in(old(self).spec_blocks(), old(self)@),
                    block,
                }),
                forall|j: int|
                    0 <= j < i ==> (#[trigger] self.eviction_pickers@[j]).history() == old(
                        self,
                    ).eviction_pickers@[j].history() + seq![event],
                forall|j: int|
                    i <= j < n ==> #[trigger] self.eviction_pickers@[j] == old(
                        self,
                    ).eviction_pickers@[j],
            decreases n - i,
        {
            self.eviction_pickers[i].on_block_evictable(
                EvictionInfo {
                    blocks: &self.blocks,
                    evictable: &self.evictable_blocks,
                    clean: self.clean_blocks.len(),
                },
                block,
            );
            assert(self.eviction_pickers@[i as int].history() =~= old(
                self,
            ).eviction_pickers@[i as int].history() + seq![event]);
            i = i + 1;
        }
    }

    /// Tell every picker that a block was evicted.
    fn notify_evict(&mut self, block: BlockId)
        ensures
            final(self).same_config(*old(self)),
            final(self)@ == (State {
                eviction_pickers: final(self)@.eviction_pickers,
                ..old(self)@
            }),
            told(
                old(self)@.eviction_pickers,
                final(self)@.eviction_pickers,
                seq![PickerEvent::Evicted {
                    seen: seen_in(old(self).spec_blocks(), old(self)@),
                    block,
                }],
            ),
    {
        let n: usize = self.eviction_pickers.len();
        let ghost event = PickerEvent::Evicted {
            seen: seen_in(old(self).spec_blocks(), old(self)@),
            block,
        };
        let mut i: usize = 0;
        while i < n
            invariant
                i <= n,
                n == self.eviction_pickers@.len(),
                n == old(self).eviction_pickers@.len(),
                self.same_config(*old(self)),
                self@ == (State { eviction_pickers: self@.eviction_pickers, ..old(self)@ }),
                event == (PickerEvent::<P>::Evicted {
                    seen: seen_in(old(self).spec_blocks(), old(self)@),
                    block,
                }),
                forall|j: int|
                    0 <= j < i ==> (#[trigger] self.eviction_pickers@[j]).history() == old(
                        self,
                    ).eviction_pickers@[j].history() + seq![event],
                forall|j: int|
                    i <= j < n ==> #[trigger] self.eviction_pickers@[j] == old(
                        self,
                    ).eviction_pickers@[j],
            decreases n - i,
        {
            self.eviction_pickers[i].on_block_evict(
                EvictionInfo {
                    blocks: &self.blocks,
                    evictable: &self.evictable_blocks,
                    clean: self.clean_blocks.len(),
                },
                block,
            );
            assert(self.eviction_pickers@[i as int].history() =~= old(
                self,
            ).eviction_pickers@[i as int].history() + seq![event]);
            i = i + 1;
        }
    }

    /// Ask the pickers in their order, until one picks a block.
    fn consult(&mut self) -> (picked: Option<BlockId>)
        ensures
            final(self).same_config(*old(self)),
            final(self)@ == (State {
                eviction_pickers: final(self)@.eviction_pickers,
                ..old(self)@
            }),
            picked matches Some(block) ==> old(self)@.evictable.contains(block),
            exists|last: int|
                consulted(
                    old(self)@.eviction_pickers,
                    final(self)@.eviction_pickers,
                    seen_in(old(self).spec_blocks(), old(self)@),
                    picked,
                    last,
                ),
    {
        let n: usize = self.eviction_pickers.len();
        let ghost seen = seen_in(old(self).spec_blocks(), old(self)@);
        let mut i: usize = 0;
        while i < n
            invariant
                i <= n,
                n == self.eviction_pickers@.len(),
                self.same_config(*old(self)),
                self@ == (State { eviction_pickers: self@.eviction_pickers, ..old(self)@ }),
                seen == seen_in(old(self).spec_blocks(), old(self)@),
                n == old(self).eviction_pickers@.len(),
                forall|j: int|
                    0 <= j < i ==> (#[trigger] self.eviction_pickers@[j]).history() == old(
                        self,
                    ).eviction_pickers@[j].history().push(
                        PickerEvent::Asked { seen, picked: None },
                    ),
                forall|j: int|
                    i <= j < n ==> #[trigger] self.eviction_pickers@[j] == old(
                        self,
                    ).eviction_pickers@[j],
            decreases n - i,
        {
            let picked = self.eviction_pickers[i].pick(
                EvictionInfo {
                    blocks: &self.blocks,
                    evictable: &self.evictable_blocks,
                    clean: self.clean_blocks.len(),
                },
            );
            if picked.is_some() {
                assert(consulted(
                    old(self)@.eviction_pickers,
                    self@.eviction_pickers,
                    seen,
                    picked,
                    i as int,
                ));
                return picked;
            }
            i = i + 1;
        }
        assert(consulted(
            old(self)@.eviction_pickers,
            self@.eviction_pickers,
            seen,
            None,
            n as int,
        ));
        None
    }

    /// Evict the given block.
    pub fn evict_block(&mut self, block: BlockId)
        requires
            old(self).wf(),
            old(self)@.evictable.contains(block),
        ensures
            final(self).wf(),
            final(self).same_config(*old(self)),
            evicted(old(self).spec_blocks(), old(self)@, final(self)@, block),
    {
        self.evictable_blocks.remove(&block);
        assert(self@ =~= State { evictable: old(self)@.evictable.remove(block), ..old(self)@ });
        self.notify_evict(block);
    }

    /// Evict a block, if there is one. The eviction pickers are asked in their order; if none of
    /// them picks a block, any is taken.
    pub fn evict(&mut self) -> (r: Option<BlockId>)
        requires
            old(self).wf(),
        ensures
            final(self).wf(),
            final(self).same_config(*old(self)),
            match r {
                Some(block) => eviction(old(self).spec_blocks(), old(self)@, final(self)@, block),
                None => final(self)@ == old(self)@,
            },
            r is None <==> old(self)@.evictable == Set::<BlockId>::empty(),
    {
        if self.evictable_blocks.is_empty() {
            assert(self@.evictable =~= Set::<BlockId>::empty());
            return None;
        }
        let picked = self.consult();
        let ghost pickers = self@.eviction_pickers;
        let block: BlockId = match picked {
            Some(block) => block,
            None => match choose_any(&self.evictable_blocks) {
                Some(block) => block,
                None => {
                    assert(false);
                    return None;
                },
            },
        };
        proof {
            assert(self@ =~= State { eviction_pickers: pickers, ..old(self)@ });
        }
        self.evict_block(block);
        Some(block)
    }

    /// Start the cleaning of a block, if it is needed. Returns the block to clean.
    pub fn reclaim_if_needed(&mut self) -> (reclaim: Option<BlockId>)
        requires
            old(self).wf(),
        ensures
            final(self).wf(),
            final(self).same_config(*old(self)),
            reclaim_started(
                old(self).spec_blocks(),
                old(self).spec_clean_block_threshold(),
                old(self).spec_reclaim_concurrency(),
                old(self)@,
                final(self)@,
                reclaim,
            ),
    {
        let ghost n = self.spec_blocks().len();
        let ghost holds = |id: BlockId| old(self)@.evictable.contains(id);
        proof {
            ids_with_members(self@.active, n, holds);
        }
        if self.reclaiming_blocks.len() >= self.reclaim_concurrency {
            return None;
        }
        let block = match self.first_retiring() {
            Some(block) => {
                self.evict_block(block);
                Some(block)
            },
            None => {
                if self.clean_blocks.len() < self.clean_block_threshold {
                    self.evict()
                } else {
                    None
                }
            },
        };
        if let Some(block) = block {
            let ghost s = self@;
            self.reclaiming_blocks.insert(block);
            assert(State { reclaiming: old(self)@.reclaiming, ..self@ } =~= s);
        }
        block
    }

    /// Get the first block that holds data and is not in use.
    fn first_retiring(&self) -> (block: Option<BlockId>)
        requires
            self.wf(),
        ensures
            ({
                let tail = evictable_tail(self@, self.spec_blocks().len());
                block == if tail.len() > 0 {
                    Some(tail[0])
                } else {
                    None
                }
            }),
    {
        let n: usize = self.blocks.len();
        let ghost holds = |id: BlockId| self@.evictable.contains(id);
        let mut id: usize = self.active_blocks;
        while id < n
            invariant
                self.wf(),
                n == self.spec_blocks().len(),
                holds == (|id: BlockId| self@.evictable.contains(id)),
                self@.active <= id <= n,
                ids_with(self@.active, id as nat, holds).len() == 0,
            decreases n - id,
        {
            let block: BlockId = id as BlockId;
            if self.evictable_blocks.contains(&block) {
                proof {
                    let head = ids_with(self@.active, (id + 1) as nat, holds);
                    assert(holds(block));
                    assert(head.len() == 1 && head[0] == block);
                    ids_with_prefix(self@.active, (id + 1) as nat, n as nat, holds);
                    assert(ids_with(self@.active, n as nat, holds).take(1)[0] == block);
                }
                return Some(block);
            }
            assert(!holds(block));
            id = id + 1;
        }
        None
    }

    /// Get a clean block. Without one the waiter is kept, to be served by the next block that is
    /// cleaned.
    pub fn get_clean_block(&mut self, waiter: W) -> (grant: Option<Grant>)
        requires
            old(self).wf(),
        ensures
            final(self).wf(),
            final(self).same_config(*old(self)),
            match grant {
                Some(grant) => {
                    let s = old(self)@;
                    &&& s.clean.len() > 0
                    &&& grant.block == s.clean.first()
                    &&& reclaim_started(
                        old(self).spec_blocks(),
                        old(self).spec_clean_block_threshold(),
                        old(self).spec_reclaim_concurrency(),
                        State {
                            clean: s.clean.drop_first(),
                            writing: s.writing.insert(grant.block),
                            ..s
                        },
                        final(self)@,
                        grant.reclaim,
                    )
                },
                None => {
                    &&& old(self)@.clean.len() == 0
                    &&& final(self)@ == (State {
                        clean_waiters: old(self)@.clean_waiters.push(waiter),
                        ..old(self)@
                    })
                },
            },
            old(self)@.partitioned(old(self).spec_blocks().len()) ==> final(self)@.partitioned(
                old(self).spec_blocks().len(),
            ),
    {
        let ghost n = self.spec_blocks().len();
        match self.clean_blocks.pop_front() {
            Some(block) => {
                assert(block == old(self)@.clean[0]);
                self.writing_blocks.insert(block);
                assert(self@ =~= State {
                    clean: old(self)@.clean.drop_first(),
                    writing: old(self)@.writing.insert(block),
                    ..old(self)@
                });
                let ghost granted = self@;
                let reclaim = self.reclaim_if_needed();
                proof {
                    if old(self)@.partitioned(n) {
                        grant_leaks_nothing(old(self)@, n);
                        reclaim_leaks_nothing(
                            self.spec_blocks(),
                            self.spec_clean_block_threshold(),
                            self.spec_reclaim_concurrency(),
                            granted,
                            self@,
                            reclaim,
                        );
                    }
                }
                Some(Grant { block, reclaim })
            },
            None => {
                self.clean_block_waiters.push(waiter);
                proof {
                    if old(self)@.partitioned(n) {
                        partition_of_blocks_alone(old(self)@, self@, n);
                    }
                }
                None
            },
        }
    }

    /// A block was written: it holds data now, and becomes evictable. One that is no longer in use
    /// is among the first to be cleaned. Returns the block to clean.
    pub fn on_writing_finish(&mut self, block: BlockId) -> (reclaim: Option<BlockId>)
        requires
            old(self).wf(),
            block < old(self).spec_blocks().len(),
            !old(self)@.evictable.contains(block),
        ensures
            final(self).wf(),
            final(self).same_config(*old(self)),
            ({
                let s = old(self)@;
                let evictable = State {
                    writing: s.writing.remove(block),
                    evictable: s.evictable.insert(block),
                    ..s
                };
                exists|pickers: Seq<E>|
                    {
                        &&& #[trigger] told(
                            s.eviction_pickers,
                            pickers,
                            seq![PickerEvent::Evictable {
                                seen: seen_in(old(self).spec_blocks(), evictable),
                                block,
                            }],
                        )
                        &&& reclaim_started(
                            old(self).spec_blocks(),
                            old(self).spec_clean_block_threshold(),
                            old(self).spec_reclaim_concurrency(),
                            State { eviction_pickers: pickers, ..evictable },
                            final(self)@,
                            reclaim,
                        )
                    }
            }),
            old(self)@.partitioned(old(self).spec_blocks().len()) && old(self)@.writing.contains(
                block,
            ) ==> final(self)@.partitioned(old(self).spec_blocks().len()),
    {
        let ghost n = self.spec_blocks().len();
        proof {
            if old(self)@.partitioned(n) && old(self)@.writing.contains(block) {
                write_leaks_nothing(old(self)@, n, block);
            }
        }
        self.writing_blocks.remove(&block);
        self.evictable_blocks.insert(block);
        let ghost evictable = self@;
        assert(evictable =~= State {
            writing: old(self)@.writing.remove(block),
            evictable: old(self)@.evictable.insert(block),
            ..old(self)@
        });
        self.notify_evictable(block);
        let ghost pickers = self@.eviction_pickers;
        assert(self@ =~= State { eviction_pickers: pickers, ..evictable });
        let ghost before = self@;
        let reclaim = self.reclaim_if_needed();
        proof {
            if old(self)@.partitioned(n) && old(self)@.writing.contains(block) {
                partition_of_blocks_alone(evictable, before, n);
                reclaim_leaks_nothing(
                    self.spec_blocks(),
                    self.spec_clean_block_threshold(),
                    self.spec_reclaim_concurrency(),
                    before,
                    self@,
                    reclaim,
                );
            }
        }
        reclaim
    }

    /// A block was cleaned. It is handed to the latest waiter with `send`, which says whether it was
    /// taken; without a waiter, or if it was not taken, it becomes clean. A block that is no longer
    /// in use retires.
    pub fn on_reclaim_finish<F: FnOnce(W, BlockId) -> bool>(
        &mut self,
        block: BlockId,
        send: F,
    ) -> (r: Reclaimed<R>)
        requires
            old(self).wf(),
            block < old(self).spec_blocks().len(),
            block < old(self)@.active && old(self)@.clean_waiters.len() > 0 ==> send.requires(
                (old(self)@.clean_waiters.last(), block),
            ),
        ensures
            final(self).wf(),
            final(self).same_config(*old(self)),
            exists|delivered: bool, after: State<E, W, R>|
                {
                    &&& block < old(self)@.active && old(self)@.clean_waiters.len() > 0
                        ==> send.ensures((old(self)@.clean_waiters.last(), block), delivered)
                    &&& #[trigger] reclaim_started(
                        old(self).spec_blocks(),
                        old(self).spec_clean_block_threshold(),
                        old(self).spec_reclaim_concurrency(),
                        handed_out(old(self)@, block, delivered),
                        after,
                        r.reclaim,
                    )
                    &&& final(self)@ == woken_up(after)
                    &&& r.woken@ == waking(after)
                },
            old(self)@.partitioned(old(self).spec_blocks().len()) && old(self)@.reclaiming.contains(
                block,
            ) ==> final(self)@.partitioned(old(self).spec_blocks().len()),
    {
        let ghost n = self.spec_blocks().len();
        self.reclaiming_blocks.remove(&block);
        let mut delivered = false;
        if (block as usize) < self.active_blocks {
            match self.clean_block_waiters.pop() {
                Some(waiter) => {
                    delivered = send(waiter, block);
                    if delivered {
                        self.writing_blocks.insert(block);
                    } else {
                        // Nobody waits any more: return the block to the clean blocks instead of
                        // leaking it.
                        self.clean_blocks.push_back(block);
                    }
                },
                None => {
                    self.clean_blocks.push_back(block);
                },
            }
        }
        let ghost before = self@;
        assert(before =~= handed_out(old(self)@, block, delivered));
        let reclaim = self.reclaim_if_needed();
        let ghost after = self@;
        let mut woken: Vec<R> = Vec::new();
        let settled = self.is_settled();
        if self.reclaiming_blocks.is_empty() {
            assert(self@.reclaiming =~= Set::<BlockId>::empty());
            std::mem::swap(&mut woken, &mut self.reclaim_waiters);
        }
        if settled {
            woken.append(&mut self.retire_waiters);
        }
        assert(woken@ =~= waking(after));
        assert(self@ =~= woken_up(after));
        proof {
            assert(block < old(self)@.active && old(self)@.clean_waiters.len() > 0
                ==> send.ensures((old(self)@.clean_waiters.last(), block), delivered));
            assert(reclaim_started(
                old(self).spec_blocks(),
                old(self).spec_clean_block_threshold(),
                old(self).spec_reclaim_concurrency(),
                handed_out(old(self)@, block, delivered),
                after,
                reclaim,
            ));
            if old(self)@.partitioned(n) && old(self)@.reclaiming.contains(block) {
                hand_out_leaks_nothing(old(self)@, n, block, delivered);
                reclaim_leaks_nothing(
                    old(self).spec_blocks(),
                    old(self).spec_clean_block_threshold(),
                    old(self).spec_reclaim_concurrency(),
                    before,
                    after,
                    reclaim,
                );
                partition_of_blocks_alone(after, self@, n);
            }
        }
        Reclaimed { reclaim, woken }
    }

    /// Check if the retirement of the blocks behind those in use is complete.
    pub fn is_settled(&self) -> (settled: bool)
        requires
            self.wf(),
        ensures
            settled == self@.settled(),
    {
        let mut id: usize = self.active_blocks;
        while id < self.blocks.len()
            invariant
                self.wf(),
                self.active_blocks <= id <= self.blocks@.len(),
                forall|j: BlockId|
                    self.active_blocks <= j < id ==> !(#[trigger] self@.evictable.contains(j)),
                forall|j: BlockId|
                    self.active_blocks <= j < id ==> !(#[trigger] self@.writing.contains(j)),
                forall|j: BlockId|
                    self.active_blocks <= j < id ==> !(#[trigger] self@.reclaiming.contains(j)),
            decreases self.blocks@.len() - id,
        {
            let block: BlockId = id as BlockId;
            assert(self.spec_blocks().len() == self.blocks@.len() && block == id);
            if self.evictable_blocks.contains(&block) || self.writing_blocks.contains(&block)
                || self.reclaiming_blocks.contains(&block) {
                assert(!idle(self@, block));
                assert(self@.active <= block);
                assert(!self@.settled());
                return false;
            }
            assert(idle(self@, block));
            assert forall|j: BlockId| self.active_blocks <= j < id + 1 implies !(
            #[trigger] self@.evictable.contains(j)) by {
                assert(j == block || j < id);
            }
            assert forall|j: BlockId| self.active_blocks <= j < id + 1 implies !(
            #[trigger] self@.writing.contains(j)) by {
                assert(j == block || j < id);
            }
            assert forall|j: BlockId| self.active_blocks <= j < id + 1 implies !(
            #[trigger] self@.reclaiming.contains(j)) by {
                assert(j == block || j < id);
            }
            id = id + 1;
        }
        true
    }

    /// Check if no block is being cleaned. Otherwise the waiter is kept, to be woken at the end of
    /// cleaning.
    pub fn wait_reclaim(&mut self, waiter: R) -> (ready: bool)
        requires
            old(self).wf(),
        ensures
            final(self).wf(),
            final(self).same_config(*old(self)),
            ready == (old(self)@.reclaiming == Set::<BlockId>::empty()),
            final(self)@ == if ready {
                old(self)@
            } else {
                State {
                    reclaim_waiters: old(self)@.reclaim_waiters.push(waiter),
                    ..old(self)@
                }
            },
    {
        if self.reclaiming_blocks.is_empty() {
            assert(self@.reclaiming =~= Set::<BlockId>::empty());
            return true;
        }
        self.reclaim_waiters.push(waiter);
        false
    }

    /// Get the number of blocks.
    pub fn blocks(&self) -> (blocks: usize)
        ensures
            blocks == self.spec_blocks().len(),
    {
        self.blocks.len()
    }

    /// Get a block.
    pub fn block(&self, id: BlockId) -> (block: &Block<P>)
        requires
            id < self.spec_blocks().len(),
        ensures
            *block == self.spec_blocks()[id as int],
    {
        &self.blocks[id as usize]
    }

    /// Get the statistics of a block, to update them.
    pub fn statistics_mut(&mut self, id: BlockId) -> (statistics: &mut BlockStatistics)
        requires
            old(self).wf(),
            id < old(self).spec_blocks().len(),
        ensures
            *statistics == old(self).spec_blocks()[id as int].spec_statistics(),
            final(self).wf(),
            final(self)@ == old(self)@,
            final(self).spec_reclaim_concurrency() == old(self).spec_reclaim_concurrency(),
            final(self).spec_clean_block_threshold() == old(self).spec_clean_block_threshold(),
            updated(
                old(self).spec_blocks(),
                final(self).spec_blocks(),
                id,
                *final(statistics),
            ),
    {
        &mut self.blocks[id as usize].statistics
    }

    /// Get the state of a block, `None` if it is not in use.
    pub fn state(&self, id: BlockId) -> (state: Option<BlockState>)
        ensures
            state == if self@.clean.contains(id) {
                Some(BlockState::Clean)
            } else if self@.evictable.contains(id) {
                Some(BlockState::Evictable)
            } else if self@.writing.contains(id) {
                Some(BlockState::Writing)
            } else if self@.reclaiming.contains(id) {
                Some(BlockState::Reclaiming)
            } else {
                None
            },
    {
        let mut i: usize = 0;
        while i < self.clean_blocks.len()
            invariant
                i <= self.clean_blocks@.len(),
                forall|j: int| 0 <= j < i ==> #[trigger] self.clean_blocks@[j] != id,
            decreases self.clean_blocks@.len() - i,
        {
            if self.clean_blocks[i] == id {
                assert(self@.clean[i as int] == id);
                return Some(BlockState::Clean);
            }
            i = i + 1;
        }
        if self.evictable_blocks.contains(&id) {
            Some(BlockState::Evictable)
        } else if self.writing_blocks.contains(&id) {
            Some(BlockState::Writing)
        } else if self.reclaiming_blocks.contains(&id) {
            Some(BlockState::Reclaiming)
        } else {
            None
        }
    }

    /// Get how many blocks are in each state.
    pub fn counts(&self) -> (counts: BlockCounts)
        ensures
            counts.clean == self@.clean.len(),
            counts.evictable == self@.evictable.len(),
            counts.writing == self@.writing.len(),
            counts.reclaiming == self@.reclaiming.len(),
    {
        BlockCounts {
            clean: self.clean_blocks.len(),
            evictable: self.evictable_blocks.len(),
            writing: self.writing_blocks.len(),
            reclaiming: self.reclaiming_blocks.len(),
        }
    }

    /// Get how many waiters for a clean block there are.
    pub fn clean_block_waiters(&self) -> (waiters: usize)
        ensures
            waiters == self@.clean_waiters.len(),
    {
        self.clean_block_waiters.len()
    }

    /// Get the number of blocks that are not in use.
    pub fn retired_count(&self) -> (retired: usize)
        requires
            self.wf(),
        ensures
            retired == self.spec_blocks().len() - self@.active,
    {
        self.blocks.len() - self.active_blocks
    }

    /// Set which blocks are clean and which ones hold data, the latter in the order in which the
    /// pickers are told of them.
    pub fn init_in_order(&mut self, clean_blocks: &Vec<BlockId>, evictable_blocks: &Vec<BlockId>)
        requires
            old(self).wf(),
            forall|i: int|
                0 <= i < clean_blocks@.len() ==> (#[trigger] clean_blocks@[i]) < old(self)@.active,
            forall|i: int|
                0 <= i < evictable_blocks@.len() ==> (#[trigger] evictable_blocks@[i]) < old(
                    self,
                )@.active,
        ensures
            final(self).wf(),
            final(self).same_config(*old(self)),
            final(self)@ == (State {
                clean: clean_blocks@,
                evictable: old(self)@.evictable.union(evictable_blocks@.to_set()),
                eviction_pickers: final(self)@.eviction_pickers,
                ..old(self)@
            }),
            told(
                old(self)@.eviction_pickers,
                final(self)@.eviction_pickers,
                evictable_events(
                    old(self).spec_blocks(),
                    old(self)@.evictable,
                    clean_blocks@.len(),
                    evictable_blocks@,
                ),
            ),
            ({
                let s = old(self)@;
                let clean = clean_blocks@;
                let evictable = evictable_blocks@;
                &&& s.evictable == Set::<BlockId>::empty()
                &&& s.writing == Set::<BlockId>::empty()
                &&& s.reclaiming == Set::<BlockId>::empty()
                &&& clean.no_duplicates()
                &&& forall|id: BlockId|
                    #![trigger clean.contains(id)]
                    #![trigger evictable.contains(id)]
                    {
                        &&& id < s.active <==> (clean.contains(id) || evictable.contains(id))
                        &&& !(clean.contains(id) && evictable.contains(id))
                    }
            }) ==> final(self)@.partitioned(old(self).spec_blocks().len()),
    {
        let ghost start = self@;
        let ghost n = self.spec_blocks().len();
        self.clean_blocks.clear();
        let mut i: usize = 0;
        while i < clean_blocks.len()
            invariant
                i <= clean_blocks@.len(),
                self.same_config(*old(self)),
                self@ == (State { clean: clean_blocks@.take(i as int), ..old(self)@ }),
            decreases clean_blocks@.len() - i,
        {
            self.clean_blocks.push_back(clean_blocks[i]);
            assert(clean_blocks@.take(i as int).push(clean_blocks@[i as int])
                =~= clean_blocks@.take(i + 1));
            i = i + 1;
        }
        assert(clean_blocks@.take(i as int) =~= clean_blocks@);
        let ghost order = evictable_blocks@;
        let ghost events = evictable_events(
            old(self).spec_blocks(),
            old(self)@.evictable,
            clean_blocks@.len(),
            order,
        );
        let mut k: usize = 0;
        proof {
            assert(old(self)@.evictable.union(order.take(0).to_set()) =~= old(self)@.evictable);
            assert forall|j: int| 0 <= j < self@.eviction_pickers.len() implies (
            #[trigger] self@.eviction_pickers[j]).history() == old(
                self,
            )@.eviction_pickers[j].history() + events.take(0) by {
                let h = old(self)@.eviction_pickers[j].history();
                assert(h + events.take(0) =~= h);
            }
        }
        while k < evictable_blocks.len()
            invariant
                k <= order.len(),
                order == evictable_blocks@,
                self.same_config(*old(self)),
                events == evictable_events(
                    old(self).spec_blocks(),
                    old(self)@.evictable,
                    clean_blocks@.len(),
                    order,
                ),
                self@ == (State {
                    clean: clean_blocks@,
                    evictable: old(self)@.evictable.union(order.take(k as int).to_set()),
                    eviction_pickers: self@.eviction_pickers,
                    ..old(self)@
                }),
                told(old(self)@.eviction_pickers, self@.eviction_pickers, events.take(k as int)),
            decreases order.len() - k,
        {
            let block: BlockId = evictable_blocks[k];
            let ghost before = self@;
            self.evictable_blocks.insert(block);
            proof {
                let now = order.take(k + 1);
                assert(now.drop_last() =~= order.take(k as int));
                assert(now =~= order.take(k as int).push(block));
                push_to_set(order.take(k as int), block);
                assert(self@ =~= State {
                    evictable: old(self)@.evictable.union(now.to_set()),
                    ..before
                });
            }
            self.notify_evictable(block);
            proof {
                assert forall|j: int| 0 <= j < self@.eviction_pickers.len() implies (
                #[trigger] self@.eviction_pickers[j]).history() == old(
                    self,
                )@.eviction_pickers[j].history() + events.take(k + 1) by {
                    let h = old(self)@.eviction_pickers[j].history();
                    assert(h + events.take(k as int) + seq![events[k as int]] =~= h + events.take(
                        k + 1,
                    ));
                    assert(before.eviction_pickers[j].history() == h + events.take(k as int));
                }
            }
            k = k + 1;
        }
        proof {
            assert(order.take(k as int) =~= order);
            assert(events.take(k as int) =~= events);
            assert forall|id: BlockId| #[trigger] self@.evictable.contains(id) implies id < n by {
                if !old(self)@.evictable.contains(id) {
                    assert(order.contains(id));
                }
            }
            let clean = clean_blocks@;
            if start.evictable == Set::<BlockId>::empty() && start.writing == Set::<
                BlockId,
            >::empty() && start.reclaiming == Set::<BlockId>::empty() && clean.no_duplicates() && (
            forall|id: BlockId|
                #![trigger clean.contains(id)]
                #![trigger order.contains(id)]
                {
                    &&& id < start.active <==> (clean.contains(id) || order.contains(id))
                    &&& !(clean.contains(id) && order.contains(id))
                }) {
                init_tracks_every_block(start, n, clean, order);
                partition_of_blocks_alone(
                    State { clean, evictable: start.evictable.union(order.to_set()), ..start },
                    self@,
                    n,
                );
            }
        }
    }

    /// Set which blocks are clean. All others in use hold data.
    pub fn init(&mut self, clean_blocks: &Vec<BlockId>)
        requires
            old(self).wf(),
            forall|i: int|
                0 <= i < clean_blocks@.len() ==> (#[trigger] clean_blocks@[i]) < old(self)@.active,
        ensures
            final(self).wf(),
            final(self).same_config(*old(self)),
            ({
                let order = ids_with(
                    0,
                    old(self)@.active,
                    |id: BlockId| !clean_blocks@.contains(id),
                );
                &&& final(self)@ == (State {
                    clean: clean_blocks@,
                    evictable: old(self)@.evictable.union(order.to_set()),
                    eviction_pickers: final(self)@.eviction_pickers,
                    ..old(self)@
                })
                &&& told(
                    old(self)@.eviction_pickers,
                    final(self)@.eviction_pickers,
                    evictable_events(
                        old(self).spec_blocks(),
                        old(self)@.evictable,
                        clean_blocks@.len(),
                        order,
                    ),
                )
            }),
            old(self)@.evictable == Set::<BlockId>::empty() && old(self)@.writing == Set::<
                BlockId,
            >::empty() && old(self)@.reclaiming == Set::<BlockId>::empty()
                && clean_blocks@.no_duplicates() ==> final(self)@.partitioned(
                old(self).spec_blocks().len(),
            ),
    {
        let mut clean: HashSet<BlockId> = HashSet::new();
        let mut i: usize = 0;
        while i < clean_blocks.len()
            invariant
                i <= clean_blocks@.len(),
                forall|id: BlockId| #[trigger]
                    clean@.contains(id) <==> clean_blocks@.take(i as int).contains(id),
            decreases clean_blocks@.len() - i,
        {
            let id: BlockId = clean_blocks[i];
            let ghost before = clean@;
            clean.insert(id);
            proof {
                let now = clean_blocks@.take(i + 1);
                let was = clean_blocks@.take(i as int);
                assert forall|x: BlockId| #[trigger] clean@.contains(x) <==> now.contains(x) by {
                    if was.contains(x) {
                        let j = choose|j: int| 0 <= j < i && was[j] == x;
                        assert(now[j] == x);
                    }
                    if x == id {
                        assert(now[i as int] == x);
                    }
                    if now.contains(x) {
                        let j = choose|j: int| 0 <= j < i + 1 && now[j] == x;
                        if j < i {
                            assert(was[j] == x);
                        }
                    }
                    assert(clean@.contains(x) <==> before.contains(x) || x == id);
                }
            }
            i = i + 1;
        }
        assert(clean_blocks@.take(i as int) =~= clean_blocks@);
        let ghost keep = |id: BlockId| !clean_blocks@.contains(id);
        let mut order: Vec<BlockId> = Vec::new();
        let mut id: usize = 0;
        while id < self.active_blocks
            invariant
                self.wf(),
                *self == *old(self),
                id <= self.active_blocks,
                keep == (|id: BlockId| !clean_blocks@.contains(id)),
                forall|id: BlockId| #[trigger]
                    clean@.contains(id) <==> clean_blocks@.contains(id),
                order@ == ids_with(0, id as nat, keep),
            decreases self.active_blocks - id,
        {
            assert(self.spec_blocks().len() == self.blocks@.len());
            let block: BlockId = id as BlockId;
            if !clean.contains(&block) {
                order.push(block);
            }
            id = id + 1;
        }
        proof {
            assert(self.spec_blocks().len() == self.blocks@.len());
            ids_with_members(0, id as nat, keep);
            let evictable = order@;
            assert forall|x: BlockId|
                #![trigger clean_blocks@.contains(x)]
                #![trigger evictable.contains(x)]
                {
                    &&& x < self@.active <==> (clean_blocks@.contains(x) || evictable.contains(x))
                    &&& !(clean_blocks@.contains(x) && evictable.contains(x))
                } by {
                assert(evictable.contains(x) <==> 0 <= x < id && keep(x));
            }
        }
        self.init_in_order(clean_blocks, &order);
    }

    /// Take the last blocks out of use. The clean ones among them retire at once; those that hold
    /// data are cleaned first, and those that are being written or cleaned retire at the end of it.
    /// No more blocks are cleaned at the same time than allowed: the others follow as those are
    /// done. Where too few blocks in use are clean now, the cleaning of one of them starts too.
    ///
    /// Returns the blocks to clean, and whether the retirement is complete. Otherwise the waiter is
    /// kept, to be woken when it is.
    pub fn retire_tail(&mut self, count: usize, waiter: R) -> (r: (Vec<BlockId>, bool))
        requires
            old(self).wf(),
            count <= old(self)@.active,
        ensures
            final(self).wf(),
            final(self).same_config(*old(self)),
            r.1 == final(self)@.settled(),
            final(self)@.retire_waiters == if r.1 {
                old(self)@.retire_waiters
            } else {
                old(self)@.retire_waiters.push(waiter)
            },
            retirement(
                old(self).spec_blocks(),
                old(self).spec_clean_block_threshold(),
                old(self).spec_reclaim_concurrency(),
                retired(old(self)@, (old(self)@.active - count) as nat),
                (State { retire_waiters: old(self)@.retire_waiters, ..final(self)@ }),
                r.0@,
            ),
            old(self).spec_reclaim_concurrency() > 0 ==> driven(
                final(self)@,
                old(self).spec_clean_block_threshold(),
            ),
            old(self)@.partitioned(old(self).spec_blocks().len()) ==> final(self)@.partitioned(
                old(self).spec_blocks().len(),
            ),
    {
        let active: usize = self.active_blocks - count;
        let ghost s = self@;
        let ghost after = retired(s, active as nat);
        // Clean blocks retire at once.
        let ghost in_use = |id: BlockId| id < active;
        let mut kept: VecDeque<BlockId> = VecDeque::new();
        let mut i: usize = 0;
        assert(s.clean.take(0).filter(in_use) =~= Seq::<BlockId>::empty()) by {
            reveal(Seq::filter);
        }
        while i < self.clean_blocks.len()
            invariant
                *self == *old(self),
                s == self@,
                i <= s.clean.len(),
                in_use == (|id: BlockId| id < active),
                kept@ == s.clean.take(i as int).filter(in_use),
            decreases s.clean.len() - i,
        {
            let id: BlockId = self.clean_blocks[i];
            proof {
                reveal(Seq::filter);
                assert(s.clean.take(i + 1).drop_last() =~= s.clean.take(i as int));
            }
            if (id as usize) < active {
                kept.push_back(id);
            }
            i = i + 1;
        }
        assert(s.clean.take(i as int) =~= s.clean);
        self.clean_blocks = kept;
        self.active_blocks = active;
        proof {
            assert(self@ =~= after);
            assert forall|i: int| 0 <= i < self@.clean.len() implies (#[trigger] self@.clean[i])
                < self@.active by {
                broadcast use vstd::seq_lib::group_filter_ensures;

                assert(in_use(s.clean.filter(in_use)[i]));
            }
        }
        // Blocks that hold data are cleaned first.
        let mut reclaim = self.drain();
        let ghost started = reclaim@;
        let ghost mid = self@;
        let next = self.reclaim_if_needed();
        let ghost last = self@;
        if let Some(block) = next {
            reclaim.push(block);
        }
        proof {
            assert(reclaim@ =~= started + also(next));
            reclaim_keeps_going(
                self.spec_blocks(),
                self.spec_clean_block_threshold(),
                self.spec_reclaim_concurrency(),
                mid,
                last,
                next,
            );
        }
        let done = self.is_settled();
        if !done {
            self.retire_waiters.push(waiter);
        }
        proof {
            assert(State { retire_waiters: s.retire_waiters, ..self@ } =~= last);
            let n = old(self).spec_blocks().len();
            if s.partitioned(n) {
                retirement_leaks_nothing(s, n, active as nat);
                draining_leaks_nothing(
                    self.spec_blocks(),
                    self.spec_reclaim_concurrency(),
                    after,
                    mid,
                    started,
                );
                reclaim_leaks_nothing(
                    self.spec_blocks(),
                    self.spec_clean_block_threshold(),
                    self.spec_reclaim_concurrency(),
                    mid,
                    last,
                    next,
                );
                partition_of_blocks_alone(last, self@, n);
            }
        }
        (reclaim, done)
    }

    /// Start the cleaning of blocks that hold data and are not in use, as many as may be cleaned at
    /// the same time.
    fn drain(&mut self) -> (reclaim: Vec<BlockId>)
        requires
            old(self).wf(),
        ensures
            final(self).wf(),
            final(self).same_config(*old(self)),
            drained(
                old(self).spec_blocks(),
                old(self).spec_reclaim_concurrency(),
                old(self)@,
                final(self)@,
                reclaim@,
            ),
    {
        let ghost s = self@;
        let n: usize = self.blocks.len();
        let ghost keep = |id: BlockId| s.evictable.contains(id);
        let ghost tail = evictable_tail(s, n as nat);
        let ghost events = evict_events(self.spec_blocks(), s.evictable, s.clean.len(), tail);
        let mut reclaim: Vec<BlockId> = Vec::new();
        let mut id: usize = self.active_blocks;
        proof {
            assert(s.evictable.difference(Seq::<BlockId>::empty().to_set()) =~= s.evictable);
            assert(s.reclaiming.union(Seq::<BlockId>::empty().to_set()) =~= s.reclaiming);
            assert forall|j: int| 0 <= j < self@.eviction_pickers.len() implies (
            #[trigger] self@.eviction_pickers[j]).history() == s.eviction_pickers[j].history()
                + Seq::<PickerEvent<P>>::empty() by {
                let h = s.eviction_pickers[j].history();
                assert(h + Seq::<PickerEvent<P>>::empty() =~= h);
            }
            assert(events.take(0) =~= Seq::<PickerEvent<P>>::empty());
            assert(reclaim@ =~= tail.take(0));
            ids_with_members(s.active, n as nat, keep);
        }
        while id < n && self.reclaiming_blocks.len() < self.reclaim_concurrency
            invariant
                self.same_config(*old(self)),
                old(self).wf(),
                s == old(self)@,
                n == self.spec_blocks().len(),
                s.active <= id <= n,
                n <= u32::MAX,
                keep == (|id: BlockId| s.evictable.contains(id)),
                tail == ids_with(s.active, n as nat, keep),
                reclaim@ == ids_with(s.active, id as nat, keep),
                reclaim@.len() <= tail.len(),
                reclaim@ == tail.take(reclaim@.len() as int),
                forall|k: int|
                    0 <= k < reclaim@.len() ==> (#[trigger] s.reclaiming.union(
                        tail.take(k).to_set(),
                    )).len() < self.reclaim_concurrency,
                events == evict_events(old(self).spec_blocks(), s.evictable, s.clean.len(), tail),
                self@ == (State {
                    evictable: s.evictable.difference(reclaim@.to_set()),
                    reclaiming: s.reclaiming.union(reclaim@.to_set()),
                    eviction_pickers: self@.eviction_pickers,
                    ..s
                }),
                told(
                    s.eviction_pickers,
                    self@.eviction_pickers,
                    events.take(reclaim@.len() as int),
                ),
            decreases n - id,
        {
            let block: BlockId = id as BlockId;
            let ghost before = self@;
            let ghost was = reclaim@;
            let ghost k = was.len() as int;
            proof {
                ids_with_members(s.active, id as nat, keep);
                assert(!was.contains(block));
                ids_with_prefix(s.active, (id + 1) as nat, n as nat, keep);
                assert(!was.to_set().contains(block));
                assert(self@.evictable.contains(block) <==> s.evictable.contains(block));
                assert(self@.reclaiming == s.reclaiming.union(tail.take(k).to_set()));
            }
            if self.evictable_blocks.contains(&block) {
                self.evictable_blocks.remove(&block);
                self.reclaiming_blocks.insert(block);
                reclaim.push(block);
                proof {
                    assert(reclaim@.drop_last() =~= was);
                    push_to_set(was, block);
                    assert(self@ =~= State {
                        evictable: s.evictable.difference(reclaim@.to_set()),
                        reclaiming: s.reclaiming.union(reclaim@.to_set()),
                        ..before
                    });
                    assert(tail.take(k + 1) =~= reclaim@);
                }
                let ghost mid = self@;
                self.notify_evict(block);
                proof {
                    assert(tail[k] == reclaim@[k]);
                    assert(events[k] == (PickerEvent::Evicted {
                        seen: seen_in(self.spec_blocks(), mid),
                        block,
                    }));
                    assert forall|j: int| 0 <= j < self@.eviction_pickers.len() implies (
                    #[trigger] self@.eviction_pickers[j]).history()
                        == s.eviction_pickers[j].history() + events.take(k + 1) by {
                        let h = s.eviction_pickers[j].history();
                        assert(h + events.take(k) + seq![events[k]] =~= h + events.take(k + 1));
                        assert(before.eviction_pickers[j].history() == h + events.take(k));
                    }
                }
            }
            id = id + 1;
        }
        proof {
            let m = reclaim@.len() as int;
            let told_events = evict_events(
                self.spec_blocks(),
                s.evictable,
                s.clean.len(),
                reclaim@,
            );
            assert(told_events =~= events.take(m)) by {
                assert forall|i: int| 0 <= i < m implies #[trigger] told_events[i]
                    == events[i] by {
                    assert(reclaim@.take(i + 1) =~= tail.take(i + 1));
                }
            }
            assert forall|k: int| 0 <= k < m implies (#[trigger] s.reclaiming.union(
                reclaim@.take(k).to_set(),
            )).len() < self.spec_reclaim_concurrency() by {
                assert(reclaim@.take(k) =~= tail.take(k));
            }
            ids_with_members(s.active, n as nat, keep);
            assert forall|x: BlockId| #[trigger] reclaim@.contains(x) implies x < n by {
                let j = choose|j: int| 0 <= j < m && reclaim@[j] == x;
                assert(tail[j] == x);
            }
            draining_respects_concurrency(
                self.spec_blocks(),
                self.spec_reclaim_concurrency(),
                s,
                self@,
                reclaim@,
            );
        }
        reclaim
    }

    /// Take the first blocks that are not in use into use again. Those that had retired are clean.
    /// Returns who waited for a retirement that is complete now.
    pub fn restore_retired(&mut self, count: usize) -> (woken: Vec<R>)
        requires
            old(self).wf(),
            old(self)@.active + count <= old(self).spec_blocks().len(),
        ensures
            final(self).wf(),
            final(self).same_config(*old(self)),
            ({
                let after = restored(old(self)@, old(self)@.active + count as nat);
                &&& woken@ == if after.settled() {
                    after.retire_waiters
                } else {
                    Seq::empty()
                }
                &&& final(self)@ == State {
                    retire_waiters: if after.settled() {
                        Seq::empty()
                    } else {
                        after.retire_waiters
                    },
                    ..after
                }
            }),
            old(self)@.partitioned(old(self).spec_blocks().len()) ==> final(self)@.partitioned(
                old(self).spec_blocks().len(),
            ),
    {
        let ghost s = self@;
        let active: usize = self.active_blocks + count;
        let ghost keep = |id: BlockId| idle(s, id);
        let mut id: usize = self.active_blocks;
        assert(s.clean + ids_with(s.active, s.active, keep) =~= s.clean);
        while id < active
            invariant
                old(self).wf(),
                self.same_config(*old(self)),
                s == old(self)@,
                keep == (|id: BlockId| idle(s, id)),
                s.active <= id <= active,
                active <= self.spec_blocks().len(),
                self.spec_blocks().len() <= u32::MAX,
                self@ == (State { clean: s.clean + ids_with(s.active, id as nat, keep), ..s }),
            decreases active - id,
        {
            let block: BlockId = id as BlockId;
            if !self.evictable_blocks.contains(&block) && !self.writing_blocks.contains(&block)
                && !self.reclaiming_blocks.contains(&block) {
                self.clean_blocks.push_back(block);
            }
            proof {
                let now = ids_with(s.active, (id + 1) as nat, keep);
                assert(self@.clean =~= s.clean + now);
                assert(self@ =~= State { clean: s.clean + now, ..s });
            }
            id = id + 1;
        }
        self.active_blocks = active;
        let ghost after = restored(s, active as nat);
        proof {
            ids_with_members(s.active, active as nat, keep);
            assert(self@ =~= after);
            assert forall|i: int| 0 <= i < self@.clean.len() implies (#[trigger] self@.clean[i])
                < self@.active by {
                if i < s.clean.len() {
                    assert(self@.clean[i] == s.clean[i]);
                } else {
                    assert(self@.clean[i] == ids_with(s.active, active as nat, keep)[i
                        - s.clean.len()]);
                }
            }
        }
        let mut woken: Vec<R> = Vec::new();
        if self.is_settled() {
            std::mem::swap(&mut woken, &mut self.retire_waiters);
        }
        proof {
            assert(self@ =~= State { retire_waiters: self@.retire_waiters, ..after });
            let n = old(self).spec_blocks().len();
            if s.partitioned(n) {
                restoration_leaks_nothing(s, n, active as nat);
                partition_of_blocks_alone(after, self@, n);
            }
        }
        woken
    }

    /// Hand a clean block to the latest waiter for one with `send`, which says whether it was taken.
    /// This is for clean blocks that were not cleaned just now, but came into use again. Returns
    /// whether there were a block and a waiter, and the block to clean.
    pub fn serve_waiter<F: FnOnce(W, BlockId) -> bool>(&mut self, send: F) -> (r: (
        bool,
        Option<BlockId>,
    ))
        requires
            old(self).wf(),
            old(self)@.clean.len() > 0 && old(self)@.clean_waiters.len() > 0 ==> send.requires(
                (old(self)@.clean_waiters.last(), old(self)@.clean.first()),
            ),
        ensures
            final(self).wf(),
            final(self).same_config(*old(self)),
            ({
                let s = old(self)@;
                let block = s.clean.first();
                let called = State { clean_waiters: s.clean_waiters.drop_last(), ..s };
                if s.clean.len() == 0 || s.clean_waiters.len() == 0 {
                    r == (false, None::<BlockId>) && final(self)@ == s
                } else {
                    &&& r.0
                    &&& {
                        ||| {
                            &&& send.ensures((s.clean_waiters.last(), block), true)
                            &&& reclaim_started(
                                old(self).spec_blocks(),
                                old(self).spec_clean_block_threshold(),
                                old(self).spec_reclaim_concurrency(),
                                State {
                                    clean: s.clean.drop_first(),
                                    writing: s.writing.insert(block),
                                    ..called
                                },
                                final(self)@,
                                r.1,
                            )
                        }
                        ||| {
                            &&& send.ensures((s.clean_waiters.last(), block), false)
                            &&& r.1 is None
                            &&& final(self)@ == called
                        }
                    }
                }
            }),
            old(self)@.partitioned(old(self).spec_blocks().len()) ==> final(self)@.partitioned(
                old(self).spec_blocks().len(),
            ),
    {
        let ghost s = self@;
        let ghost n = self.spec_blocks().len();
        if self.clean_blocks.len() == 0 {
            return (false, None);
        }
        let waiter = match self.clean_block_waiters.pop() {
            Some(waiter) => waiter,
            None => {
                assert(self@ =~= s);
                return (false, None);
            },
        };
        let ghost called = self@;
        let block: BlockId = self.clean_blocks[0];
        proof {
            assert(called =~= State { clean_waiters: s.clean_waiters.drop_last(), ..s });
            if s.partitioned(n) {
                partition_of_blocks_alone(s, called, n);
                grant_leaks_nothing(called, n);
            }
        }
        if !send(waiter, block) {
            return (true, None);
        }
        self.clean_blocks.pop_front();
        self.writing_blocks.insert(block);
        let ghost granted = self@;
        assert(granted =~= State {
            clean: s.clean.drop_first(),
            writing: s.writing.insert(block),
            ..called
        });
        let reclaim = self.reclaim_if_needed();
        proof {
            if s.partitioned(n) {
                reclaim_leaks_nothing(
                    self.spec_blocks(),
                    self.spec_clean_block_threshold(),
                    self.spec_reclaim_concurrency(),
                    granted,
                    self@,
                    reclaim,
                );
            }
        }
        (true, reclaim)
    }

    /// Divide what is free of a device into blocks of the given size, until the device has no space
    /// for another one. No block is clean or holds data yet.
    pub fn open<D: Device<Part = P>>(
        device: &mut D,
        block_size: usize,
        eviction_pickers: Vec<E>,
        reclaim_concurrency: usize,
        clean_block_threshold: usize,
    ) -> (r: Result<Self, Error>)
        requires
            old(device).wf(),
            block_size > 0,
            (old(device).spec_capacity() - old(device).spec_allocated()) / block_size as int
                <= u32::MAX,
        ensures
            final(device).wf(),
            final(device).spec_capacity() == old(device).spec_capacity(),
            ({
                let before = old(device).spec_partitions();
                let after = final(device).spec_partitions();
                let n = (after.len() - before.len()) as nat;
                let tried = old(device).requests() + granted(block_size, n);
                &&& before.len() <= after.len()
                &&& before == after.take(before.len() as int)
                &&& final(device).spec_allocated() == old(device).spec_allocated() + n * block_size
                &&& match r {
                    Ok(manager) => {
                        &&& manager.wf()
                        &&& manager.spec_blocks().len() == n
                        &&& forall|i: int|
                            0 <= i < n ==> {
                                let block = #[trigger] manager.spec_blocks()[i];
                                &&& block.spec_id() == i
                                &&& block.spec_partition() == after[before.len() + i]
                                &&& block.spec_partition().spec_size() == block_size
                                &&& block.spec_statistics() == BlockStatistics::zero()
                            }
                        &&& manager.spec_reclaim_concurrency() == reclaim_concurrency
                        &&& manager.spec_clean_block_threshold() == clean_block_threshold
                        &&& manager@ == State::<E, W, R>::fresh(n, manager@.eviction_pickers)
                        &&& told(
                            eviction_pickers@,
                            manager@.eviction_pickers,
                            seq![PickerEvent::Opened {
                                blocks: Seq::new(n, |i: int| i as BlockId),
                                block_size,
                            }],
                        )
                        &&& if final(device).spec_capacity() - final(device).spec_allocated()
                            < block_size {
                            final(device).requests() == tried
                        } else {
                            ran_out(tried, final(device).requests(), block_size)
                        }
                        &&& n == old(device).room(block_size)
                    },
                    Err(e) => {
                        &&& !old(device).reliable()
                        &&& e.spec_kind() != ErrorKind::NoSpace
                        &&& final(device).requests() == tried + refused(block_size, e)
                        &&& n <= old(device).room(block_size)
                    },
                }
            }),
    {
        let ghost before = device.spec_partitions();
        let ghost requests = device.requests();
        let ghost room = device.spec_capacity() - device.spec_allocated();
        let ghost allocated = device.spec_allocated();
        let mut blocks: Vec<Block<P>> = Vec::new();
        let mut full = false;
        proof {
            device.wf_fits();
            assert(requests + granted(block_size, 0) =~= requests);
            assert(before.take(before.len() as int) =~= before);
        }
        while !full && device.free() >= block_size
            invariant
                device.wf(),
                block_size > 0,
                room / block_size as int <= u32::MAX,
                device.spec_capacity() == old(device).spec_capacity(),
                room == old(device).spec_capacity() - old(device).spec_allocated(),
                allocated == old(device).spec_allocated(),
                before == old(device).spec_partitions(),
                requests == old(device).requests(),
                device.spec_partitions().len() == before.len() + blocks@.len(),
                before == device.spec_partitions().take(before.len() as int),
                device.spec_allocated() == allocated + blocks@.len() * block_size,
                device.spec_allocated() <= device.spec_capacity(),
                blocks@.len() <= u32::MAX,
                forall|i: int|
                    0 <= i < blocks@.len() ==> {
                        let block = #[trigger] blocks@[i];
                        &&& block.spec_id() == i
                        &&& block.spec_partition() == device.spec_partitions()[before.len() + i]
                        &&& block.spec_partition().spec_size() == block_size
                        &&& block.spec_statistics() == BlockStatistics::zero()
                    },
                full ==> device.spec_capacity() - device.spec_allocated() >= block_size,
                old(device).reliable() ==> device.reliable(),
                device.room(block_size) + blocks@.len() == old(device).room(block_size),
                full ==> device.room(block_size) == 0,
                if full {
                    ran_out(
                        requests + granted(block_size, blocks@.len()),
                        device.requests(),
                        block_size,
                    )
                } else {
                    device.requests() == requests + granted(block_size, blocks@.len())
                },
            decreases
                    (if full {
                        0int
                    } else {
                        1 + device.spec_capacity() - device.spec_allocated()
                    }),
        {
            let ghost partitions = device.spec_partitions();
            let ghost n = blocks@.len();
            proof {
                let size = block_size as int;
                blocks_fit(n as int, size, room);
                assert((n + 1) * size == n * size + size) by (nonlinear_arith);
            }
            match device.create_partition(block_size) {
                Ok(partition) => {
                    let id: BlockId = blocks.len() as BlockId;
                    blocks.push(
                        Block { id, partition, statistics: BlockStatistics::default() },
                    );
                    proof {
                        device.wf_fits();
                        assert(device.spec_partitions().take(before.len() as int)
                            =~= partitions.take(before.len() as int));
                        assert(device.requests() =~= requests + granted(block_size, n + 1));
                    }
                },
                Err(e) => {
                    if e.kind() == ErrorKind::NoSpace {
                        full = true;
                    } else {
                        assert(device.requests() =~= requests + granted(block_size, n) + refused(
                            block_size,
                            e,
                        ));
                        return Err(e);
                    }
                },
            }
        }
        proof {
            device.room_fits(block_size);
            let room = device.room(block_size);
            if !full && room > 0 {
                assert(room * block_size >= block_size) by (nonlinear_arith)
                    requires
                        room >= 1,
                ;
            }
        }
        let n: usize = blocks.len();
        let mut ids: Vec<BlockId> = Vec::new();
        let mut i: usize = 0;
        while i < n
            invariant
                i <= n,
                n == blocks@.len(),
                ids@.len() == i,
                forall|j: int| 0 <= j < n ==> (#[trigger] blocks@[j]).spec_id() == j,
                forall|j: int| 0 <= j < i ==> #[trigger] ids@[j] == j,
            decreases n - i,
        {
            ids.push(blocks[i].id());
            i = i + 1;
        }
        let ghost opened = PickerEvent::Opened {
            blocks: Seq::new(n as nat, |i: int| i as BlockId),
            block_size,
        };
        assert(ids@ =~= Seq::new(n as nat, |i: int| i as BlockId));
        let mut pickers = eviction_pickers;
        let mut k: usize = 0;
        while k < pickers.len()
            invariant
                k <= pickers@.len(),
                pickers@.len() == eviction_pickers@.len(),
                opened == (PickerEvent::<P>::Opened { blocks: ids@, block_size }),
                forall|j: int|
                    0 <= j < k ==> (#[trigger] pickers@[j]).history()
                        == eviction_pickers@[j].history() + seq![opened],
                forall|j: int|
                    k <= j < pickers@.len() ==> #[trigger] pickers@[j] == eviction_pickers@[j],
            decreases pickers@.len() - k,
        {
            pickers[k].init(&ids, block_size);
            assert(pickers@[k as int].history() =~= eviction_pickers@[k as int].history()
                + seq![opened]);
            k = k + 1;
        }
        let manager = BlockManager {
            blocks,
            clean_blocks: VecDeque::new(),
            evictable_blocks: HashSet::new(),
            writing_blocks: HashSet::new(),
            reclaiming_blocks: HashSet::new(),
            active_blocks: n,
            clean_block_waiters: Vec::new(),
            reclaim_waiters: Vec::new(),
            retire_waiters: Vec::new(),
            eviction_pickers: pickers,
            reclaim_concurrency,
            clean_block_threshold,
        };
        Ok(manager)
    }

    /// Keep only as many blocks in use as the device has room for. This is for a device that was
    /// made smaller before it was opened.
    pub fn limit_active(&mut self, active: usize)
        requires
            old(self).wf(),
            old(self)@.clean.len() == 0,
            old(self)@.evictable == Set::<BlockId>::empty(),
        ensures
            final(self).wf(),
            final(self).same_config(*old(self)),
            final(self)@ == (State {
                active: if active < old(self)@.active {
                    active as nat
                } else {
                    old(self)@.active
                },
                ..old(self)@
            }),
    {
        if active < self.active_blocks {
            self.active_blocks = active;
        }
    }

    /// Forget the statistics of a block.
    pub fn reset_statistics(&mut self, id: BlockId)
        requires
            old(self).wf(),
            id < old(self).spec_blocks().len(),
        ensures
            final(self).wf(),
            final(self)@ == old(self)@,
            final(self).spec_reclaim_concurrency() == old(self).spec_reclaim_concurrency(),
            final(self).spec_clean_block_threshold() == old(self).spec_clean_block_threshold(),
            updated(
                old(self).spec_blocks(),
                final(self).spec_blocks(),
                id,
                BlockStatistics::zero(),
            ),
    {
        self.blocks[id as usize].statistics.reset();
        assert forall|i: int| 0 <= i < self.spec_blocks().len() implies (
        #[trigger] self.spec_blocks()[i]).spec_id() == i by {
            assert(old(self).spec_blocks()[i].spec_id() == i);
        }
    }
}

/// Where one more block fits, there are fewer blocks than fit in all.
proof fn blocks_fit(n: int, size: int, room: int)
    requires
        0 <= n,
        0 < size,
        n * size + size <= room,
    ensures
        n + 1 <= room / size,
{
    assert((n + 1) * size == n * size + size) by (nonlinear_arith);
    vstd::arithmetic::div_mod::lemma_div_is_ordered((n + 1) * size, room, size);
    vstd::arithmetic::div_mod::lemma_div_multiples_vanish(n + 1, size);
    assert((n + 1) * size == size * (n + 1)) by (nonlinear_arith);
}

/// The ids up to some bound are a prefix of those up to a later one.
proof fn ids_with_prefix(from: nat, mid: nat, to: nat, keep: spec_fn(BlockId) -> bool)
    requires
        mid <= to,
    ensures
        ids_with(from, mid, keep).len() <= ids_with(from, to, keep).len(),
        ids_with(from, to, keep).take(ids_with(from, mid, keep).len() as int) == ids_with(
            from,
            mid,
            keep,
        ),
    decreases to,
{
    let a = ids_with(from, mid, keep);
    let b = ids_with(from, to, keep);
    if mid < to && from < to {
        let c = ids_with(from, (to - 1) as nat, keep);
        ids_with_prefix(from, mid, (to - 1) as nat, keep);
        assert(b.take(a.len() as int) =~= c.take(a.len() as int));
    } else {
        assert(b.take(a.len() as int) =~= a);
    }
}

proof fn push_to_set(s: Seq<BlockId>, id: BlockId)
    ensures
        s.push(id).to_set() == s.to_set().insert(id),
{
    let t = s.push(id);
    assert forall|x: BlockId| #[trigger] s.contains(x) implies t.contains(x) by {
        let j = choose|j: int| 0 <= j < s.len() && s[j] == x;
        assert(t[j] == x);
    }
    assert(t[s.len() as int] == id);
    assert(t.to_set() =~= s.to_set().insert(id));
}

/// Whether blocks are leaked depends on the states of the blocks alone.
proof fn partition_of_blocks_alone<E, W, R>(a: State<E, W, R>, b: State<E, W, R>, blocks: nat)
    requires
        a.partitioned(blocks),
        b.clean == a.clean,
        b.evictable == a.evictable,
        b.writing == a.writing,
        b.reclaiming == a.reclaiming,
        b.active == a.active,
    ensures
        b.partitioned(blocks),
{
    assert forall|id: BlockId| #[trigger] b.count(id) == a.count(id) by {}
    assert forall|id: BlockId| b.active <= id < blocks implies #[trigger] b.count(id) <= 1
        && !b.clean.contains(id) by {
        assert(a.count(id) <= 1);
    }
}

/// Starting to clean a block leaks no block: it goes from the evictable blocks to those that are
/// cleaned.
pub proof fn reclaim_leaks_nothing<P: Partition, E: EvictionPicker<P>, W, R>(
    blocks: Seq<Block<P>>,
    clean_block_threshold: usize,
    reclaim_concurrency: usize,
    before: State<E, W, R>,
    after: State<E, W, R>,
    reclaim: Option<BlockId>,
)
    requires
        blocks.len() <= u32::MAX,
        before.partitioned(blocks.len()),
        reclaim_started(
            blocks,
            clean_block_threshold,
            reclaim_concurrency,
            before,
            after,
            reclaim,
        ),
    ensures
        after.partitioned(blocks.len()),
        reclaim matches Some(block) ==> before.evictable.contains(block)
            && after.reclaiming.contains(block),
{
    ids_with_members(before.active, blocks.len(), |id: BlockId| before.evictable.contains(id));
    if let Some(block) = reclaim {
        assert(before.evictable.contains(block));
        assert(before.count(block) >= 1);
        assert forall|id: BlockId| #[trigger] after.count(id) == before.count(id) by {
            assert(before.count(block) == 1);
        }
        assert forall|id: BlockId| after.active <= id < blocks.len() implies #[trigger] after.count(
            id,
        ) <= 1 && !after.clean.contains(id) by {
            assert(before.count(id) <= 1);
        }
    }
}

/// A block is cleaned only while fewer blocks than allowed are.
pub proof fn reclaim_respects_concurrency<P: Partition, E: EvictionPicker<P>, W, R>(
    blocks: Seq<Block<P>>,
    clean_block_threshold: usize,
    reclaim_concurrency: usize,
    before: State<E, W, R>,
    after: State<E, W, R>,
    reclaim: Option<BlockId>,
)
    requires
        before.reclaiming.finite(),
        before.reclaiming.len() <= reclaim_concurrency,
        reclaim_started(
            blocks,
            clean_block_threshold,
            reclaim_concurrency,
            before,
            after,
            reclaim,
        ),
    ensures
        after.reclaiming.finite(),
        after.reclaiming.len() <= reclaim_concurrency,
{
}

/// Handing out a cleaned block leaks no block, whether a waiter takes it or not.
pub proof fn hand_out_leaks_nothing<E, W, R>(
    s: State<E, W, R>,
    blocks: nat,
    block: BlockId,
    delivered: bool,
)
    requires
        s.partitioned(blocks),
        s.reclaiming.contains(block),
    ensures
        handed_out(s, block, delivered).partitioned(blocks),
{
    let after = handed_out(s, block, delivered);
    let pushed = s.clean.push(block);
    assert(s.count(block) >= 1);
    assert(s.count(block) == 1);
    assert forall|id: BlockId| #[trigger] pushed.contains(id) <==> s.clean.contains(id) || id
        == block by {
        if s.clean.contains(id) {
            let j = choose|j: int| 0 <= j < s.clean.len() && s.clean[j] == id;
            assert(pushed[j] == id);
        }
        if id == block {
            assert(pushed[s.clean.len() as int] == id);
        }
    }
    assert forall|id: BlockId| #[trigger] after.count(id) == if id == block && block >= s.active {
        0
    } else {
        s.count(id)
    } by {}
    assert forall|id: BlockId| after.active <= id < blocks implies #[trigger] after.count(id) <= 1
        && !after.clean.contains(id) by {
        assert(s.count(id) <= 1);
    }
}

/// Handing a clean block to a writer leaks no block.
pub proof fn grant_leaks_nothing<E, W, R>(s: State<E, W, R>, blocks: nat)
    requires
        s.partitioned(blocks),
        s.clean.len() > 0,
    ensures
        (State {
            clean: s.clean.drop_first(),
            writing: s.writing.insert(s.clean.first()),
            ..s
        }).partitioned(blocks),
{
    let block = s.clean.first();
    let after = State { clean: s.clean.drop_first(), writing: s.writing.insert(block), ..s };
    assert(s.clean[0] == block);
    assert(s.clean.contains(block));
    assert(s.count(block) == 1) by {
        assert(s.count(block) >= 1);
    }
    assert forall|id: BlockId| #[trigger] after.clean.contains(id) <==> s.clean.contains(id) && id
        != block by {
        if s.clean.contains(id) && id != block {
            let j = choose|j: int| 0 <= j < s.clean.len() && s.clean[j] == id;
            assert(after.clean[j - 1] == id);
        }
        if after.clean.contains(id) {
            let j = choose|j: int| 0 <= j < after.clean.len() && after.clean[j] == id;
            assert(s.clean[j + 1] == id);
        }
    }
    assert forall|id: BlockId| #[trigger] after.count(id) == s.count(id) by {}
    assert forall|id: BlockId| after.active <= id < blocks implies #[trigger] after.count(id) <= 1
        && !after.clean.contains(id) by {
        assert(s.count(id) <= 1);
    }
}

/// A block that was written does not leak when it becomes evictable.
pub proof fn write_leaks_nothing<E, W, R>(s: State<E, W, R>, blocks: nat, block: BlockId)
    requires
        s.partitioned(blocks),
        s.writing.contains(block),
    ensures
        (State {
            writing: s.writing.remove(block),
            evictable: s.evictable.insert(block),
            ..s
        }).partitioned(blocks),
{
    assert(s.count(block) >= 1);
    assert(s.count(block) == 1);
    let after = State {
        writing: s.writing.remove(block),
        evictable: s.evictable.insert(block),
        ..s
    };
    assert forall|id: BlockId| #[trigger] after.count(id) == s.count(id) by {}
    assert forall|id: BlockId| s.active <= id < blocks implies #[trigger] after.count(id) <= 1
        && !after.clean.contains(id) by {
        assert(s.count(id) <= 1);
    }
}

proof fn filter_members(s: Seq<BlockId>, keep: spec_fn(BlockId) -> bool)
    ensures
        forall|id: BlockId| #[trigger]
            s.filter(keep).contains(id) <==> s.contains(id) && keep(id),
        s.no_duplicates() ==> s.filter(keep).no_duplicates(),
    decreases s.len(),
{
    reveal(Seq::filter);
    let t = s.filter(keep);
    if s.len() > 0 {
        let rest = s.drop_last();
        let last = s.last();
        filter_members(rest, keep);
        assert forall|id: BlockId| #[trigger] s.contains(id) <==> rest.contains(id) || id
            == last by {
            if rest.contains(id) {
                let j = choose|j: int| 0 <= j < rest.len() && rest[j] == id;
                assert(s[j] == id);
            }
            if s.contains(id) {
                let j = choose|j: int| 0 <= j < s.len() && s[j] == id;
                if j < rest.len() {
                    assert(rest[j] == id);
                }
            }
            if id == last {
                assert(s[s.len() - 1] == id);
            }
        }
        if keep(last) {
            let f = rest.filter(keep);
            assert(t == f.push(last));
            assert forall|id: BlockId| #[trigger] t.contains(id) <==> f.contains(id) || id
                == last by {
                if f.contains(id) {
                    let j = choose|j: int| 0 <= j < f.len() && f[j] == id;
                    assert(t[j] == id);
                }
                if id == last {
                    assert(t[f.len() as int] == id);
                }
            }
            if s.no_duplicates() {
                assert(rest.no_duplicates());
                if f.contains(last) {
                    assert(rest.contains(last));
                    let j = choose|j: int| 0 <= j < rest.len() && rest[j] == last;
                    assert(s[j] == s[s.len() - 1]);
                }
            }
        } else {
            assert(t == rest.filter(keep));
        }
    }
}

/// Taking blocks out of use leaks no block.
pub proof fn retirement_leaks_nothing<E, W, R>(s: State<E, W, R>, blocks: nat, active: nat)
    requires
        s.partitioned(blocks),
        active <= s.active,
        blocks <= u32::MAX,
    ensures
        retired(s, active).partitioned(blocks),
{
    let after = retired(s, active);
    let in_use = |id: BlockId| id < active;
    filter_members(s.clean, in_use);
    assert(after.clean == s.clean.filter(in_use));
    assert forall|id: BlockId| id < active implies #[trigger] after.count(id) == 1 by {
        assert(s.count(id) == 1);
        assert(after.clean.contains(id) <==> s.clean.contains(id));
    }
    assert forall|id: BlockId| active <= id < blocks implies #[trigger] after.count(id) <= 1
        && !after.clean.contains(id) by {
        assert(s.count(id) <= 1);
        assert(after.clean.contains(id) <==> s.clean.contains(id) && in_use(id));
    }
    assert forall|id: BlockId| blocks <= id implies #[trigger] after.count(id) == 0 by {
        assert(s.count(id) == 0);
        assert(after.clean.contains(id) <==> s.clean.contains(id) && in_use(id));
    }
}

/// Starting to clean the blocks that are not in use leaks no block.
pub proof fn draining_leaks_nothing<P: Partition, E: EvictionPicker<P>, W, R>(
    blocks: Seq<Block<P>>,
    reclaim_concurrency: usize,
    before: State<E, W, R>,
    after: State<E, W, R>,
    started: Seq<BlockId>,
)
    requires
        blocks.len() <= u32::MAX,
        before.partitioned(blocks.len()),
        drained(blocks, reclaim_concurrency, before, after, started),
    ensures
        after.partitioned(blocks.len()),
{
    let keep = |id: BlockId| before.evictable.contains(id);
    ids_with_members(before.active, blocks.len(), keep);
    let tail = evictable_tail(before, blocks.len());
    assert forall|id: BlockId| #[trigger] started.to_set().contains(id) implies before.active <= id
        && before.evictable.contains(id) by {
        let i = choose|i: int| 0 <= i < started.len() && started[i] == id;
        assert(tail[i] == id);
        assert(tail.contains(id));
    }
    assert forall|id: BlockId| #[trigger] after.count(id) == before.count(id) by {
        assert(before.count(id) <= 1) by {
            if id < before.active {
                assert(before.count(id) == 1);
            } else if id < blocks.len() {
                assert(before.count(id) <= 1);
            } else {
                assert(before.count(id) == 0);
            }
        }
    }
    assert forall|id: BlockId| after.active <= id < blocks.len() implies #[trigger] after.count(id)
        <= 1 && !after.clean.contains(id) by {
        assert(before.count(id) <= 1);
    }
}

/// No more blocks that are not in use are cleaned at the same time than allowed.
pub proof fn draining_respects_concurrency<P: Partition, E: EvictionPicker<P>, W, R>(
    blocks: Seq<Block<P>>,
    reclaim_concurrency: usize,
    before: State<E, W, R>,
    after: State<E, W, R>,
    started: Seq<BlockId>,
)
    requires
        before.reclaiming.finite(),
        before.reclaiming.len() <= reclaim_concurrency,
        drained(blocks, reclaim_concurrency, before, after, started),
    ensures
        after.reclaiming.finite(),
        after.reclaiming.len() <= reclaim_concurrency,
{
    if started.len() == 0 {
        assert(started.to_set() =~= Set::empty());
        assert(after.reclaiming =~= before.reclaiming);
    } else {
        let k = started.len() - 1;
        let rest = started.take(k);
        assert(started =~= rest.push(started[k]));
        push_to_set(rest, started[k]);
        let most = before.reclaiming.union(rest.to_set());
        assert(after.reclaiming =~= most.insert(started[k]));
        vstd::seq_lib::seq_to_set_is_finite(rest);
    }
}

/// Whenever it was decided whether to clean a block, something happens or nothing is needed.
pub proof fn reclaim_keeps_going<P: Partition, E: EvictionPicker<P>, W, R>(
    blocks: Seq<Block<P>>,
    clean_block_threshold: usize,
    reclaim_concurrency: usize,
    before: State<E, W, R>,
    after: State<E, W, R>,
    reclaim: Option<BlockId>,
)
    requires
        reclaim_started(
            blocks,
            clean_block_threshold,
            reclaim_concurrency,
            before,
            after,
            reclaim,
        ),
    ensures
        reclaim_concurrency > 0 ==> driven(after, clean_block_threshold),
{
    if let Some(block) = reclaim {
        assert(after.reclaiming.contains(block));
    } else if before.reclaiming.len() >= reclaim_concurrency && reclaim_concurrency > 0 {
        assert(before.reclaiming.len() > 0);
        assert(before.reclaiming != Set::<BlockId>::empty());
    }
}

/// Nobody waits in vain for a clean block: as long as blocks are in use, and something happens or
/// nothing is needed, there is a clean block, or one is written, or one is cleaned.
pub proof fn waiting_ends<E, W, R>(s: State<E, W, R>, blocks: nat, clean_block_threshold: usize)
    requires
        s.partitioned(blocks),
        s.active > 0,
        clean_block_threshold > 0,
        driven(s, clean_block_threshold),
    ensures
        s.clean.len() > 0 || s.writing != Set::<BlockId>::empty() || s.reclaiming != Set::<
            BlockId,
        >::empty(),
{
    assert(s.count(0) == 1);
}

/// Taking blocks into use again leaks no block.
pub proof fn restoration_leaks_nothing<E, W, R>(s: State<E, W, R>, blocks: nat, active: nat)
    requires
        s.partitioned(blocks),
        s.active <= active <= blocks,
        blocks <= u32::MAX,
    ensures
        restored(s, active).partitioned(blocks),
{
    let after = restored(s, active);
    let keep = |id: BlockId| idle(s, id);
    let back = ids_with(s.active, active, keep);
    ids_with_members(s.active, active, keep);
    assert(after.clean == s.clean + back);
    assert forall|id: BlockId| #[trigger] after.clean.contains(id) <==> s.clean.contains(id)
        || back.contains(id) by {
        if s.clean.contains(id) {
            let j = choose|j: int| 0 <= j < s.clean.len() && s.clean[j] == id;
            assert(after.clean[j] == id);
        }
        if back.contains(id) {
            let j = choose|j: int| 0 <= j < back.len() && back[j] == id;
            assert(after.clean[s.clean.len() + j] == id);
        }
        if after.clean.contains(id) {
            let j = choose|j: int| 0 <= j < after.clean.len() && after.clean[j] == id;
            if j < s.clean.len() {
                assert(s.clean[j] == id);
            } else {
                assert(back[j - s.clean.len()] == id);
            }
        }
    }
    assert forall|id: BlockId| #[trigger] s.clean.contains(id) implies id < s.active by {
        assert(s.count(id) >= 1);
    }
    assert(after.clean.no_duplicates()) by {
        assert forall|i: int, j: int|
            0 <= i < after.clean.len() && 0 <= j < after.clean.len() && i
                != j implies after.clean[i] != after.clean[j] by {
            let n = s.clean.len();
            if i < n {
                assert(s.clean.contains(s.clean[i]));
            } else {
                assert(back.contains(back[i - n]));
            }
            if j < n {
                assert(s.clean.contains(s.clean[j]));
            } else {
                assert(back.contains(back[j - n]));
            }
        }
    }
    assert forall|id: BlockId| id < active implies #[trigger] after.count(id) == 1 by {
        assert(s.count(id) <= 1);
        assert(back.contains(id) <==> s.active <= id < active && keep(id));
    }
    assert forall|id: BlockId| active <= id < blocks implies #[trigger] after.count(id) <= 1
        && !after.clean.contains(id) by {
        assert(s.count(id) <= 1);
        assert(back.contains(id) <==> s.active <= id < active && keep(id));
    }
    assert forall|id: BlockId| blocks <= id implies #[trigger] after.count(id) == 0 by {
        assert(s.count(id) == 0);
        assert(back.contains(id) <==> s.active <= id < active && keep(id));
    }
}

/// The retirement of blocks is complete exactly if none of those that are not in use holds data, or is
/// written or cleaned.
pub proof fn settled_blocks_are_idle<E, W, R>(s: State<E, W, R>, id: BlockId)
    ensures
        s.settled() && s.active <= id ==> {
            &&& !s.evictable.contains(id)
            &&& !s.writing.contains(id)
            &&& !s.reclaiming.contains(id)
        },
        !s.settled() ==> exists|other: BlockId|
            {
                &&& s.active <= other
                &&& #[trigger] s.evictable.contains(other) || s.writing.contains(other)
                    || s.reclaiming.contains(other)
            },
{
    if !s.settled() {
        if !none_behind(s.active, s.evictable) {
            let id = choose|id: BlockId| s.active <= id && #[trigger] s.evictable.contains(id);
            assert(s.evictable.contains(id));
        } else if !none_behind(s.active, s.writing) {
            let id = choose|id: BlockId| s.active <= id && #[trigger] s.writing.contains(id);
            assert(s.writing.contains(id) && !s.evictable.contains(id));
        } else {
            let id = choose|id: BlockId| s.active <= id && #[trigger] s.reclaiming.contains(id);
            assert(s.reclaiming.contains(id) && !s.evictable.contains(id));
        }
    }
}

/// If no block is leaked and none is shared, every block in use is clean, or holds data, or is written,
/// or is cleaned, and no block is two of these.
pub proof fn block_is_in_one_state<E, W, R>(s: State<E, W, R>, blocks: nat, id: BlockId)
    requires
        s.partitioned(blocks),
    ensures
        id < s.active ==> s.clean.contains(id) || s.evictable.contains(id) || s.writing.contains(id)
            || s.reclaiming.contains(id),
        s.clean.contains(id) ==> id < s.active && !s.evictable.contains(id) && !s.writing.contains(
            id,
        ) && !s.reclaiming.contains(id),
        s.evictable.contains(id) ==> id < blocks && !s.writing.contains(id)
            && !s.reclaiming.contains(id),
        s.writing.contains(id) ==> id < blocks && !s.reclaiming.contains(id),
        s.reclaiming.contains(id) ==> id < blocks,
{
    if id < s.active {
        assert(s.count(id) == 1);
    } else if id < blocks {
        assert(s.count(id) <= 1);
    } else {
        assert(s.count(id) == 0);
    }
}

/// The cleaning of a block starts exactly if another block may be cleaned, and one that is not in use
/// holds data, or there are too few clean blocks and some block holds data. Blocks that are not in use
/// come first, by ascending id. That one block goes from those that hold data to those that are
/// cleaned, and nothing else is changed.
pub proof fn reclaim_follows_need<P: Partition, E: EvictionPicker<P>, W, R>(
    blocks: Seq<Block<P>>,
    clean_block_threshold: usize,
    reclaim_concurrency: usize,
    before: State<E, W, R>,
    after: State<E, W, R>,
    reclaim: Option<BlockId>,
)
    requires
        blocks.len() <= u32::MAX,
        forall|id: BlockId| #[trigger] before.evictable.contains(id) ==> id < blocks.len(),
        reclaim_started(
            blocks,
            clean_block_threshold,
            reclaim_concurrency,
            before,
            after,
            reclaim,
        ),
    ensures
        ({
            let retiring = exists|id: BlockId|
                before.active <= id && #[trigger] before.evictable.contains(id);
            let few = before.clean.len() < clean_block_threshold && exists|id: BlockId| #[trigger]
                before.evictable.contains(id);
            reclaim is Some <==> before.reclaiming.len() < reclaim_concurrency && (retiring || few)
        }),
        match reclaim {
            Some(block) => {
                &&& before.evictable.contains(block)
                &&& forall|id: BlockId|
                    before.active <= id && #[trigger] before.evictable.contains(id)
                        ==> before.active <= block <= id
                &&& after.evictable == before.evictable.remove(block)
                &&& after.reclaiming == before.reclaiming.insert(block)
                &&& after.eviction_pickers.len() == before.eviction_pickers.len()
                &&& forall|k: int|
                    0 <= k < after.eviction_pickers.len() ==> {
                        let history = (#[trigger] after.eviction_pickers[k]).history();
                        let was = before.eviction_pickers[k].history();
                        &&& was.len() < history.len()
                        &&& history.take(was.len() as int) == was
                        &&& history.last() == PickerEvent::Evicted {
                            seen: Seen {
                                blocks,
                                evictable: after.evictable,
                                clean: before.clean.len(),
                            },
                            block,
                        }
                    }
            },
            None => after == before,
        },
        after.clean == before.clean,
        after.writing == before.writing,
        after.active == before.active,
        after.clean_waiters == before.clean_waiters,
        after.reclaim_waiters == before.reclaim_waiters,
        after.retire_waiters == before.retire_waiters,
{
    let n = blocks.len();
    let keep = |id: BlockId| before.evictable.contains(id);
    let tail = evictable_tail(before, n);
    ids_with_members(before.active, n, keep);
    ids_with_ascend(before.active, n, keep);
    if tail.len() > 0 {
        assert(before.active <= tail[0] && before.evictable.contains(tail[0]));
    }
    if exists|id: BlockId| before.active <= id && #[trigger] before.evictable.contains(id) {
        let id = choose|id: BlockId| before.active <= id && #[trigger] before.evictable.contains(id);
        assert(keep(id));
        assert(tail.contains(id));
    }
    if before.evictable != Set::<BlockId>::empty() {
        assert(exists|id: BlockId| #[trigger] before.evictable.contains(id)) by {
            if forall|id: BlockId| !#[trigger] before.evictable.contains(id) {
                assert(before.evictable =~= Set::<BlockId>::empty());
            }
        }
    }
    if let Some(block) = reclaim {
        assert forall|id: BlockId|
            before.active <= id && #[trigger] before.evictable.contains(id) implies before.active
            <= block <= id by {
            assert(keep(id));
            assert(tail.contains(id));
            let j = choose|j: int| 0 <= j < tail.len() && tail[j] == id;
            assert(j == 0 || tail[0] < tail[j]);
        }
        let left = State { reclaiming: before.reclaiming, ..after };
        let gone = PickerEvent::<P>::Evicted {
            seen: Seen { blocks, evictable: after.evictable, clean: before.clean.len() },
            block,
        };
        if tail.len() > 0 {
            assert forall|k: int| 0 <= k < after.eviction_pickers.len() implies {
                let history = (#[trigger] after.eviction_pickers[k]).history();
                let was = before.eviction_pickers[k].history();
                &&& was.len() < history.len()
                &&& history.take(was.len() as int) == was
                &&& history.last() == gone
            } by {
                let was = before.eviction_pickers[k].history();
                assert((was + seq![gone]).take(was.len() as int) =~= was);
                assert(after.eviction_pickers[k].history() == was + seq![gone]);
            }
        } else {
            let last = pickers_decide(blocks, before, left, block);
            assert forall|k: int| 0 <= k < after.eviction_pickers.len() implies {
                let history = (#[trigger] after.eviction_pickers[k]).history();
                let was = before.eviction_pickers[k].history();
                &&& was.len() < history.len()
                &&& history.take(was.len() as int) == was
                &&& history.last() == gone
            } by {
                let was = before.eviction_pickers[k].history();
                let history = after.eviction_pickers[k].history();
                assert(left.eviction_pickers[k].history() == history);
                assert(history.take(was.len() as int) =~= was);
            }
        }
    }
}

/// The pickers decide which block is evicted: they are asked in their order, with what can be evicted,
/// until one picks a block, and that one is taken. The picker that picked is returned, or their number
/// if none did. All of them are told of the eviction.
pub proof fn pickers_decide<P: Partition, E: EvictionPicker<P>, W, R>(
    blocks: Seq<Block<P>>,
    before: State<E, W, R>,
    after: State<E, W, R>,
    block: BlockId,
) -> (last: int)
    requires
        eviction(blocks, before, after, block),
    ensures
        before.evictable.contains(block),
        after.evictable == before.evictable.remove(block),
        after == (State {
            evictable: after.evictable,
            eviction_pickers: after.eviction_pickers,
            ..before
        }),
        after.eviction_pickers.len() == before.eviction_pickers.len(),
        0 <= last <= after.eviction_pickers.len(),
        ({
            let clean = before.clean.len();
            let seen = Seen { blocks, evictable: before.evictable, clean };
            let gone = PickerEvent::Evicted {
                seen: Seen { blocks, evictable: before.evictable.remove(block), clean },
                block,
            };
            forall|i: int|
                0 <= i < after.eviction_pickers.len() ==> (
                #[trigger] after.eviction_pickers[i]).history()
                    == before.eviction_pickers[i].history() + (if i < last {
                    seq![PickerEvent::Asked { seen, picked: None }, gone]
                } else if i == last {
                    seq![PickerEvent::Asked { seen, picked: Some(block) }, gone]
                } else {
                    seq![gone]
                })
        }),
{
    let (pickers, picked, last) = choose|pickers: Seq<E>, picked: Option<BlockId>, last: int|
        {
            &&& #[trigger] consulted(
                before.eviction_pickers,
                pickers,
                seen_in(blocks, before),
                picked,
                last,
            )
            &&& picked is Some ==> picked == Some(block)
            &&& evicted(blocks, State { eviction_pickers: pickers, ..before }, after, block)
        };
    let clean = before.clean.len();
    let seen = Seen { blocks, evictable: before.evictable, clean };
    let gone = PickerEvent::<P>::Evicted {
        seen: Seen { blocks, evictable: before.evictable.remove(block), clean },
        block,
    };
    assert forall|i: int| 0 <= i < after.eviction_pickers.len() implies (
    #[trigger] after.eviction_pickers[i]).history() == before.eviction_pickers[i].history() + (if i
        < last {
        seq![PickerEvent::Asked { seen, picked: None }, gone]
    } else if i == last {
        seq![PickerEvent::Asked { seen, picked: Some(block) }, gone]
    } else {
        seq![gone]
    }) by {
        let h = before.eviction_pickers[i].history();
        assert(after.eviction_pickers[i].history() == pickers[i].history() + seq![gone]);
        if i < last {
            assert(h.push(PickerEvent::Asked { seen, picked: None }) + seq![gone] =~= h
                + seq![PickerEvent::Asked { seen, picked: None }, gone]);
        } else if i == last {
            assert(h.push(PickerEvent::Asked { seen, picked: Some(block) }) + seq![gone] =~= h
                + seq![PickerEvent::Asked { seen, picked: Some(block) }, gone]);
        } else {
            assert(pickers[i] == before.eviction_pickers[i]);
        }
    }
    last
}

/// Blocks that are not in use are cleaned by ascending id, as many at the same time as allowed: those
/// that are left to be cleaned have higher ids, and no more may be cleaned now.
pub proof fn draining_follows_ids<P: Partition, E: EvictionPicker<P>, W, R>(
    blocks: Seq<Block<P>>,
    reclaim_concurrency: usize,
    before: State<E, W, R>,
    after: State<E, W, R>,
    started: Seq<BlockId>,
)
    requires
        blocks.len() <= u32::MAX,
        forall|id: BlockId| #[trigger] before.evictable.contains(id) ==> id < blocks.len(),
        before.reclaiming.finite(),
        before.reclaiming.len() <= reclaim_concurrency,
        drained(blocks, reclaim_concurrency, before, after, started),
    ensures
        forall|i: int|
            0 <= i < started.len() ==> before.active <= (#[trigger] started[i])
                && before.evictable.contains(started[i]),
        forall|i: int, j: int| 0 <= i < j < started.len() ==> started[i] < started[j],
        forall|id: BlockId|
            after.active <= id && #[trigger] after.evictable.contains(id) ==> {
                &&& after.reclaiming.len() >= reclaim_concurrency
                &&& forall|i: int| 0 <= i < started.len() ==> (#[trigger] started[i]) < id
            },
        forall|id: BlockId| #[trigger]
            after.evictable.contains(id) <==> before.evictable.contains(id) && !started.contains(id),
        forall|id: BlockId| #[trigger]
            after.reclaiming.contains(id) <==> before.reclaiming.contains(id) || started.contains(
                id,
            ),
        after.reclaiming.len() <= reclaim_concurrency,
        after.eviction_pickers.len() == before.eviction_pickers.len(),
        forall|k: int|
            0 <= k < after.eviction_pickers.len() ==> {
                let history = (#[trigger] after.eviction_pickers[k]).history();
                let was = before.eviction_pickers[k].history();
                &&& history.len() == was.len() + started.len()
                &&& history.take(was.len() as int) == was
                &&& forall|i: int|
                    0 <= i < started.len() ==> (#[trigger] history[was.len()
                        + i] matches PickerEvent::Evicted { block, .. } && block == started[i])
            },
        after.clean == before.clean,
        after.writing == before.writing,
        after.active == before.active,
        after.clean_waiters == before.clean_waiters,
        after.reclaim_waiters == before.reclaim_waiters,
        after.retire_waiters == before.retire_waiters,
{
    let n = blocks.len();
    let keep = |id: BlockId| before.evictable.contains(id);
    let tail = evictable_tail(before, n);
    let events = evict_events(blocks, before.evictable, before.clean.len(), started);
    assert forall|k: int| 0 <= k < after.eviction_pickers.len() implies {
        let history = (#[trigger] after.eviction_pickers[k]).history();
        let was = before.eviction_pickers[k].history();
        &&& history.len() == was.len() + started.len()
        &&& history.take(was.len() as int) == was
        &&& forall|i: int|
            0 <= i < started.len() ==> (#[trigger] history[was.len()
                + i] matches PickerEvent::Evicted { block, .. } && block == started[i])
    } by {
        let was = before.eviction_pickers[k].history();
        let history = after.eviction_pickers[k].history();
        assert(history == was + events);
        assert(history.take(was.len() as int) =~= was);
        assert forall|i: int| 0 <= i < started.len() implies (#[trigger] history[was.len()
            + i] matches PickerEvent::Evicted { block, .. } && block == started[i]) by {
            assert(history[was.len() + i] == events[i]);
        }
    }
    ids_with_members(before.active, n, keep);
    ids_with_ascend(before.active, n, keep);
    draining_respects_concurrency(blocks, reclaim_concurrency, before, after, started);
    assert forall|i: int| 0 <= i < started.len() implies before.active <= (#[trigger] started[i])
        && before.evictable.contains(started[i]) by {
        assert(started[i] == tail[i]);
    }
    assert forall|i: int, j: int| 0 <= i < j < started.len() implies started[i] < started[j] by {
        assert(started[i] == tail[i] && started[j] == tail[j]);
    }
    assert forall|id: BlockId|
        after.active <= id && #[trigger] after.evictable.contains(id) implies {
        &&& after.reclaiming.len() >= reclaim_concurrency
        &&& forall|i: int| 0 <= i < started.len() ==> (#[trigger] started[i]) < id
    } by {
        assert(keep(id));
        assert(tail.contains(id));
        let j = choose|j: int| 0 <= j < tail.len() && tail[j] == id;
        if j < started.len() {
            assert(started[j] == id);
            assert(started.to_set().contains(id));
        }
        assert forall|i: int| 0 <= i < started.len() implies (#[trigger] started[i]) < id by {
            assert(started[i] == tail[i]);
        }
    }
}

/// Shrinking starts the cleaning of blocks that hold data, and of no others: those that go out of use,
/// by ascending id and as many as allowed, and at most one that stays in use, if too few blocks are
/// clean. As long as one that goes out of use is left, no more may be cleaned.
pub proof fn shrinking_cleans_the_tail<P: Partition, E: EvictionPicker<P>, W, R>(
    blocks: Seq<Block<P>>,
    clean_block_threshold: usize,
    reclaim_concurrency: usize,
    before: State<E, W, R>,
    after: State<E, W, R>,
    reclaim: Seq<BlockId>,
)
    requires
        blocks.len() <= u32::MAX,
        forall|id: BlockId| #[trigger] before.evictable.contains(id) ==> id < blocks.len(),
        before.reclaiming.finite(),
        before.reclaiming.len() <= reclaim_concurrency,
        retirement(
            blocks,
            clean_block_threshold,
            reclaim_concurrency,
            before,
            after,
            reclaim,
        ),
    ensures
        forall|i: int|
            0 <= i < reclaim.len() ==> before.evictable.contains(#[trigger] reclaim[i]) && (
            reclaim[i] < before.active ==> i == reclaim.len() - 1 && before.clean.len()
                < clean_block_threshold),
        forall|i: int, j: int|
            0 <= i < j < reclaim.len() && reclaim[j] >= before.active ==> reclaim[i] < reclaim[j],
        forall|id: BlockId| #[trigger]
            after.evictable.contains(id) <==> before.evictable.contains(id) && !reclaim.contains(id),
        forall|id: BlockId| #[trigger]
            after.reclaiming.contains(id) <==> before.reclaiming.contains(id) || reclaim.contains(
                id,
            ),
        after.reclaiming.len() <= reclaim_concurrency,
        (exists|id: BlockId| after.active <= id && #[trigger] after.evictable.contains(id))
            ==> after.reclaiming.len() >= reclaim_concurrency,
        after.clean == before.clean,
        after.writing == before.writing,
        after.active == before.active,
        after.clean_waiters == before.clean_waiters,
        after.reclaim_waiters == before.reclaim_waiters,
        after.retire_waiters == before.retire_waiters,
{
    let (started, mid, next) = choose|
        started: Seq<BlockId>,
        mid: State<E, W, R>,
        next: Option<BlockId>,
    |
        {
            &&& #[trigger] drained(blocks, reclaim_concurrency, before, mid, started)
            &&& #[trigger] reclaim_started(
                blocks,
                clean_block_threshold,
                reclaim_concurrency,
                mid,
                after,
                next,
            )
            &&& reclaim == started + also(next)
        };
    draining_follows_ids(blocks, reclaim_concurrency, before, mid, started);
    draining_respects_concurrency(blocks, reclaim_concurrency, before, mid, started);
    assert forall|id: BlockId| #[trigger] mid.evictable.contains(id) implies id < blocks.len() by {
        assert(before.evictable.contains(id));
    }
    reclaim_follows_need(
        blocks,
        clean_block_threshold,
        reclaim_concurrency,
        mid,
        after,
        next,
    );
    reclaim_respects_concurrency(
        blocks,
        clean_block_threshold,
        reclaim_concurrency,
        mid,
        after,
        next,
    );
    let n = started.len() as int;
    assert forall|id: BlockId| #[trigger] reclaim.contains(id) <==> started.contains(id) || next
        == Some(id) by {
        if started.contains(id) {
            let i = choose|i: int| 0 <= i < n && started[i] == id;
            assert(reclaim[i] == id);
        }
        if next == Some(id) {
            assert(reclaim[n] == id);
        }
        if reclaim.contains(id) {
            let i = choose|i: int| 0 <= i < reclaim.len() && reclaim[i] == id;
            if i < n {
                assert(started[i] == id);
            }
        }
    }
    assert forall|i: int| 0 <= i < reclaim.len() implies before.evictable.contains(
        #[trigger] reclaim[i],
    ) && (reclaim[i] < before.active ==> i == reclaim.len() - 1 && before.clean.len()
        < clean_block_threshold) by {
        if i < n {
            assert(reclaim[i] == started[i]);
        } else {
            assert(next == Some(reclaim[i]));
            assert(mid.evictable.contains(reclaim[i]));
            if reclaim[i] < before.active && before.clean.len() >= clean_block_threshold {
                let id = choose|id: BlockId|
                    mid.active <= id && #[trigger] mid.evictable.contains(id);
                assert(mid.active <= reclaim[i]);
            }
        }
    }
    assert forall|i: int, j: int|
        0 <= i < j < reclaim.len() && reclaim[j] >= before.active implies reclaim[i]
        < reclaim[j] by {
        assert(reclaim[i] == started[i]);
        if j < n {
            assert(reclaim[j] == started[j]);
        } else {
            assert(next == Some(reclaim[j]));
            assert(mid.evictable.contains(reclaim[j]));
        }
    }
    if exists|id: BlockId| after.active <= id && #[trigger] after.evictable.contains(id) {
        let id = choose|id: BlockId| after.active <= id && #[trigger] after.evictable.contains(id);
        assert(mid.evictable.contains(id));
        assert(mid.reclaiming.len() >= reclaim_concurrency);
        assert(next is None);
    }
}

/// A block that was cleaned is no longer. One that is not in use goes nowhere. Any other one goes to the
/// latest waiter, who is then served, and is written if they take it; if they do not, or if nobody
/// waits, it is the last one of the clean blocks.
pub proof fn cleaned_block_finds_its_place<E, W, R>(
    s: State<E, W, R>,
    block: BlockId,
    delivered: bool,
)
    ensures
        ({
            let after = handed_out(s, block, delivered);
            let in_use = block < s.active;
            let waited_for = s.clean_waiters.len() > 0;
            &&& after.reclaiming == s.reclaiming.remove(block)
            &&& after.evictable == s.evictable
            &&& after.active == s.active
            &&& after.reclaim_waiters == s.reclaim_waiters
            &&& after.retire_waiters == s.retire_waiters
            &&& after.eviction_pickers == s.eviction_pickers
            &&& in_use && waited_for ==> s.clean_waiters == after.clean_waiters.push(
                s.clean_waiters[s.clean_waiters.len() - 1],
            )
            &&& !in_use || !waited_for ==> after.clean_waiters == s.clean_waiters
            &&& in_use && waited_for && delivered ==> after.writing == s.writing.insert(block)
                && after.clean == s.clean
            &&& in_use && !(waited_for && delivered) ==> after.clean == s.clean.push(block)
                && after.writing == s.writing
            &&& !in_use ==> after.clean == s.clean && after.writing == s.writing
        }),
{
    if s.clean_waiters.len() > 0 {
        assert(s.clean_waiters =~= s.clean_waiters.drop_last().push(
            s.clean_waiters[s.clean_waiters.len() - 1],
        ));
    }
}

/// Who waits for the end of cleaning is woken as soon as no block is cleaned, who waits for the
/// retirement of blocks as soon as it is complete, and nobody is woken before that or forgotten.
pub proof fn waiters_are_woken_in_time<E, W, R>(s: State<E, W, R>)
    ensures
        ({
            let after = woken_up(s);
            let woken = waking(s);
            let cleaned = forall|id: BlockId| !#[trigger] s.reclaiming.contains(id);
            let settled = forall|id: BlockId|
                #![trigger s.evictable.contains(id)]
                s.active <= id ==> !s.evictable.contains(id) && !s.writing.contains(id)
                    && !s.reclaiming.contains(id);
            &&& cleaned ==> after.reclaim_waiters.len() == 0
            &&& !cleaned ==> after.reclaim_waiters == s.reclaim_waiters
            &&& settled ==> after.retire_waiters.len() == 0
            &&& !settled ==> after.retire_waiters == s.retire_waiters
            &&& woken.len() + after.reclaim_waiters.len() + after.retire_waiters.len()
                == s.reclaim_waiters.len() + s.retire_waiters.len()
            &&& forall|w: R|
                s.reclaim_waiters.contains(w) || s.retire_waiters.contains(w) <==> #[trigger]
                woken.contains(w) || after.reclaim_waiters.contains(w)
                    || after.retire_waiters.contains(w)
            &&& after == (State {
                reclaim_waiters: after.reclaim_waiters,
                retire_waiters: after.retire_waiters,
                ..s
            })
        }),
{
    let after = woken_up(s);
    let woken = waking(s);
    if forall|id: BlockId| !#[trigger] s.reclaiming.contains(id) {
        assert(s.reclaiming =~= Set::<BlockId>::empty());
    }
    settled_blocks_are_idle(s, 0);
    if s.settled() {
        assert forall|id: BlockId|
            #![trigger s.evictable.contains(id)]
            s.active <= id implies !s.evictable.contains(id) && !s.writing.contains(id)
            && !s.reclaiming.contains(id) by {
            settled_blocks_are_idle(s, id);
        }
    }
    let a = if s.reclaiming == Set::<BlockId>::empty() {
        s.reclaim_waiters
    } else {
        Seq::empty()
    };
    let b = if s.settled() {
        s.retire_waiters
    } else {
        Seq::empty()
    };
    assert(woken == a + b);
    assert forall|w: R| #[trigger] woken.contains(w) <==> a.contains(w) || b.contains(w) by {
        if a.contains(w) {
            let i = choose|i: int| 0 <= i < a.len() && a[i] == w;
            assert(woken[i] == w);
        }
        if b.contains(w) {
            let i = choose|i: int| 0 <= i < b.len() && b[i] == w;
            assert(woken[a.len() + i] == w);
        }
        if woken.contains(w) {
            let i = choose|i: int| 0 <= i < woken.len() && woken[i] == w;
            if i < a.len() {
                assert(a[i] == w);
            } else {
                assert(b[i - a.len()] == w);
            }
        }
    }
}

/// Taking blocks out of use takes them off the clean blocks, and changes nothing else: the other clean
/// blocks keep their order.
pub proof fn retirement_touches_clean_blocks_alone<E, W, R>(
    s: State<E, W, R>,
    active: nat,
    id: BlockId,
)
    ensures
        retired(s, active).active == active,
        retired(s, active).clean.contains(id) <==> s.clean.contains(id) && id < active,
        retired(s, active) == (State { active, clean: retired(s, active).clean, ..s }),
        s.clean.len() > 0 ==> ({
            let rest = State { clean: s.clean.drop_last(), ..s };
            retired(s, active).clean == if s.clean.last() < active {
                retired(rest, active).clean.push(s.clean.last())
            } else {
                retired(rest, active).clean
            }
        }),
{
    filter_members(s.clean, |id: BlockId| id < active);
    reveal(Seq::filter);
}

/// Taking blocks into use again adds those of them that are in no state to the clean blocks, behind the
/// others and by ascending id, and changes nothing else.
pub proof fn restoration_adds_idle_blocks<E, W, R>(s: State<E, W, R>, active: nat)
    requires
        active <= u32::MAX,
    ensures
        ({
            let after = restored(s, active);
            let n = s.clean.len() as int;
            &&& after.active == active
            &&& after.clean.len() >= n
            &&& after.clean.take(n) == s.clean
            &&& forall|id: BlockId| #[trigger]
                after.clean.skip(n).contains(id) <==> s.active <= id < active
                    && !s.evictable.contains(id) && !s.writing.contains(id)
                    && !s.reclaiming.contains(id)
            &&& forall|i: int, j: int|
                n <= i < j < after.clean.len() ==> after.clean[i] < after.clean[j]
            &&& after == (State { active, clean: after.clean, ..s })
        }),
{
    let after = restored(s, active);
    let n = s.clean.len() as int;
    let keep = |id: BlockId| idle(s, id);
    let back = ids_with(s.active, active, keep);
    ids_with_members(s.active, active, keep);
    ids_with_ascend(s.active, active, keep);
    assert(after.clean.take(n) =~= s.clean);
    assert(after.clean.skip(n) =~= back);
    assert forall|id: BlockId| #[trigger] back.contains(id) <==> s.active <= id < active
        && !s.evictable.contains(id) && !s.writing.contains(id) && !s.reclaiming.contains(id) by {
        assert(back.contains(id) <==> s.active <= id < active && keep(id));
    }
    assert forall|i: int, j: int| n <= i < j < after.clean.len() implies after.clean[i]
        < after.clean[j] by {
        assert(after.clean[i] == back[i - n] && after.clean[j] == back[j - n]);
    }
}

/// What stays the same of a manager are its blocks, with their statistics, and its configuration.
pub proof fn configuration_stays<P: Partition, E: EvictionPicker<P>, W, R>(
    before: BlockManager<P, E, W, R>,
    after: BlockManager<P, E, W, R>,
)
    requires
        after.same_config(before),
    ensures
        after.spec_blocks() == before.spec_blocks(),
        after.spec_reclaim_concurrency() == before.spec_reclaim_concurrency(),
        after.spec_clean_block_threshold() == before.spec_clean_block_threshold(),
{
}

/// Every picker is told of all events, and of nothing else.
pub proof fn pickers_are_told<P: Partition, E: EvictionPicker<P>>(
    before: Seq<E>,
    after: Seq<E>,
    events: Seq<PickerEvent<P>>,
    i: int,
)
    requires
        told(before, after, events),
        0 <= i < before.len(),
    ensures
        after.len() == before.len(),
        after[i].history() == before[i].history() + events,
{
}

/// The pickers see the blocks that can be evicted at the time of each event: blocks that become
/// evictable join them one by one, and blocks that are evicted leave them one by one.
pub proof fn events_show_the_evictable_blocks<P: Partition>(
    blocks: Seq<Block<P>>,
    evictable: Set<BlockId>,
    clean: nat,
    order: Seq<BlockId>,
    i: int,
    id: BlockId,
)
    requires
        0 <= i < order.len(),
    ensures
        evictable_events(blocks, evictable, clean, order).len() == order.len(),
        evict_events(blocks, evictable, clean, order).len() == order.len(),
        evictable_events(blocks, evictable, clean, order)[i] matches PickerEvent::Evictable {
            seen,
            block,
        } && {
            &&& block == order[i]
            &&& seen.blocks == blocks
            &&& seen.clean == clean
            &&& seen.evictable.contains(id) <==> evictable.contains(id) || exists|j: int|
                0 <= j <= i && #[trigger] order[j] == id
        },
        evict_events(blocks, evictable, clean, order)[i] matches PickerEvent::Evicted {
            seen,
            block,
        } && {
            &&& block == order[i]
            &&& seen.blocks == blocks
            &&& seen.clean == clean
            &&& seen.evictable.contains(id) <==> evictable.contains(id) && forall|j: int|
                0 <= j <= i ==> #[trigger] order[j] != id
        },
{
    let head = order.take(i + 1);
    assert(head.contains(id) <==> exists|j: int| 0 <= j <= i && #[trigger] order[j] == id) by {
        if head.contains(id) {
            let j = choose|j: int| 0 <= j < head.len() && head[j] == id;
            assert(order[j] == id);
        }
        if exists|j: int| 0 <= j <= i && #[trigger] order[j] == id {
            let j = choose|j: int| 0 <= j <= i && #[trigger] order[j] == id;
            assert(head[j] == id);
        }
    }
    assert(head.to_set().contains(id) <==> head.contains(id));
}

/// The statistics of one block are updated, and nothing else of any block.
pub proof fn statistics_of_one_block<P: Partition>(
    before: Seq<Block<P>>,
    after: Seq<Block<P>>,
    id: BlockId,
    statistics: BlockStatistics,
    other: int,
)
    requires
        updated(before, after, id, statistics),
        0 <= other < before.len(),
    ensures
        after.len() == before.len(),
        after[other].spec_id() == before[other].spec_id(),
        after[other].spec_partition() == before[other].spec_partition(),
        other == id ==> after[other].spec_statistics() == statistics,
        other != id ==> after[other].spec_statistics() == before[other].spec_statistics(),
{
}

/// Requests for partitions of one size are all for that size, and all of them are granted but the last
/// one, if any.
pub proof fn requests_for_blocks(size: usize, n: nat, e: Error, i: int)
    requires
        0 <= i < n,
    ensures
        granted(size, n).len() == n,
        granted(size, n)[i].size == size,
        granted(size, n)[i].refusal is None,
        refused(size, e).len() == 1,
        refused(size, e)[0].size == size,
        refused(size, e)[0].refusal == Some(e),
{
}

/// Once there is no space for another partition that was asked for too: the last request is for it,
/// and was refused for want of space.
pub proof fn last_request_finds_no_space(tried: Seq<Request>, requests: Seq<Request>, size: usize)
    requires
        ran_out(tried, requests, size),
    ensures
        requests.len() == tried.len() + 1,
        requests.take(tried.len() as int) == tried,
        requests[tried.len() as int].size == size,
        requests[tried.len() as int].refusal matches Some(e) && e is NoSpace,
{
    assert(requests.take(tried.len() as int) =~= tried);
}

/// In a fresh state no block is in any state, and nobody waits.
pub proof fn fresh_state_is_empty<E, W, R>(active: nat, eviction_pickers: Seq<E>, id: BlockId)
    ensures
        ({
            let s = State::<E, W, R>::fresh(active, eviction_pickers);
            &&& s.active == active
            &&& s.eviction_pickers == eviction_pickers
            &&& s.clean.len() == 0
            &&& !s.evictable.contains(id)
            &&& !s.writing.contains(id)
            &&& !s.reclaiming.contains(id)
            &&& s.clean_waiters.len() == 0
            &&& s.reclaim_waiters.len() == 0
            &&& s.retire_waiters.len() == 0
        }),
{
}

/// Once it is said which blocks are clean and which ones hold data, every block in use is in
/// exactly one state.
pub proof fn init_tracks_every_block<E, W, R>(
    s: State<E, W, R>,
    blocks: nat,
    clean: Seq<BlockId>,
    evictable: Seq<BlockId>,
)
    requires
        s.active <= blocks,
        s.evictable == Set::<BlockId>::empty(),
        s.writing == Set::<BlockId>::empty(),
        s.reclaiming == Set::<BlockId>::empty(),
        clean.no_duplicates(),
        forall|id: BlockId|
            #![trigger clean.contains(id)]
            #![trigger evictable.contains(id)]
            id < s.active <==> (clean.contains(id) || evictable.contains(id)),
        forall|id: BlockId|
            #![trigger clean.contains(id)]
            #![trigger evictable.contains(id)]
            !(clean.contains(id) && evictable.contains(id)),
    ensures
        (State { clean, evictable: s.evictable.union(evictable.to_set()), ..s }).partitioned(blocks),
{
    let after = State { clean, evictable: s.evictable.union(evictable.to_set()), ..s };
    assert forall|id: BlockId| #[trigger] after.evictable.contains(id) <==> evictable.contains(
        id,
    ) by {}
    assert forall|id: BlockId| id < after.active implies #[trigger] after.count(id) == 1 by {
        assert(clean.contains(id) || evictable.contains(id));
    }
    assert forall|id: BlockId| after.active <= id implies #[trigger] after.count(id) == 0
        && !after.clean.contains(id) && !after.evictable.contains(id) by {
        assert(!(clean.contains(id) || evictable.contains(id)));
    }
}

proof fn ids_below(n: nat) -> (ids: Set<BlockId>)
    requires
        n <= u32::MAX,
    ensures
        ids.finite(),
        ids.len() == n,
        forall|id: BlockId| #[trigger] ids.contains(id) <==> id < n,
    decreases n,
{
    if n == 0 {
        Set::empty()
    } else {
        let rest = ids_below((n - 1) as nat);
        rest.insert((n - 1) as BlockId)
    }
}

/// The blocks in use are as many as there are in the four states together, once the retirement of
/// the others is complete.
pub proof fn states_add_up<E, W, R>(s: State<E, W, R>, blocks: nat)
    requires
        s.partitioned(blocks),
        s.settled(),
        blocks <= u32::MAX,
    ensures
        s.clean.len() + s.evictable.len() + s.writing.len() + s.reclaiming.len() == s.active,
{
    let all = ids_below(s.active);
    let clean = s.clean.to_set();
    assert forall|id: BlockId| #[trigger] all.contains(id) <==> s.count(id) == 1 by {
        assert(id < s.active ==> s.count(id) == 1);
        if s.active <= id {
            assert(s.count(id) <= 1);
            assert(!s.evictable.contains(id));
            assert(!s.writing.contains(id));
            assert(!s.reclaiming.contains(id));
            assert(s.count(id) == 0);
        }
    }
    assert forall|id: BlockId| #[trigger] s.count(id) <= 1 by {
        assert(all.contains(id) || s.active <= id);
    }
    s.clean.unique_seq_to_set();
    assert(clean.subset_of(all)) by {
        assert forall|id: BlockId| #[trigger] clean.contains(id) implies all.contains(id) by {
            assert(s.count(id) >= 1);
        }
    }
    assert(s.evictable.subset_of(all)) by {
        assert forall|id: BlockId| #[trigger] s.evictable.contains(id) implies all.contains(
            id,
        ) by {
            assert(s.count(id) >= 1);
        }
    }
    assert(s.writing.subset_of(all)) by {
        assert forall|id: BlockId| #[trigger] s.writing.contains(id) implies all.contains(id) by {
            assert(s.count(id) >= 1);
        }
    }
    assert(s.reclaiming.subset_of(all)) by {
        assert forall|id: BlockId| #[trigger] s.reclaiming.contains(id) implies all.contains(
            id,
        ) by {
            assert(s.count(id) >= 1);
        }
    }
    vstd::set_lib::lemma_len_subset(clean, all);
    vstd::set_lib::lemma_len_subset(s.evictable, all);
    vstd::set_lib::lemma_len_subset(s.writing, all);
    vstd::set_lib::lemma_len_subset(s.reclaiming, all);
    let ab = clean.union(s.evictable);
    let abc = ab.union(s.writing);
    let abcd = abc.union(s.reclaiming);
    assert forall|id: BlockId| !(clean.contains(id) && s.evictable.contains(id)) && !(
    #[trigger] ab.contains(id) && s.writing.contains(id)) && !(abc.contains(id)
        && s.reclaiming.contains(id)) by {
        assert(s.count(id) <= 1);
    }
    assert(clean.disjoint(s.evictable)) by {
        assert forall|id: BlockId| clean.contains(id) implies !s.evictable.contains(id) by {
            assert(ab.contains(id));
        }
    }
    assert(ab.disjoint(s.writing));
    assert(abc.disjoint(s.reclaiming)) by {
        assert forall|id: BlockId| abc.contains(id) implies !s.reclaiming.contains(id) by {
            assert(s.count(id) <= 1);
        }
    }
    vstd::set_lib::lemma_set_disjoint_lens(clean, s.evictable);
    vstd::set_lib::lemma_set_disjoint_lens(ab, s.writing);
    vstd::set_lib::lemma_set_disjoint_lens(abc, s.reclaiming);
    assert(abcd =~= all) by {
        assert forall|id: BlockId| #[trigger] all.contains(id) implies abcd.contains(id) by {
            assert(s.count(id) == 1);
        }
    }
}

/// Once the retirement of blocks is complete none of them is in any state.
pub proof fn retired_blocks_are_idle<E, W, R>(
    s: State<E, W, R>,
    blocks: nat,
    block: BlockId,
)
    requires
        s.partitioned(blocks),
        s.settled(),
        s.active <= block,
    ensures
        s.count(block) == 0,
{
    if block < blocks {
        assert(s.count(block) <= 1);
        assert(!s.clean.contains(block));
    }
    assert(s.count(block) == 0) by {
        if block < blocks {
            assert(!s.evictable.contains(block));
            assert(!s.writing.contains(block));
            assert(!s.reclaiming.contains(block));
        }
    }
}

/// The blocks that went out of use come back clean, and nothing is changed of the others: `active`
/// of them stay in use, and the rest is taken into use again once it was cleaned.
pub proof fn growth_undoes_shrink<E, W, R>(s: State<E, W, R>, blocks: nat, active: nat)
    requires
        s.partitioned(blocks),
        blocks <= u32::MAX,
        active <= s.active,
        none_behind(active, s.writing),
        none_behind(active, s.reclaiming),
    ensures
        ({
            let shrunk = retired(s, active);
            let cleaned = State {
                evictable: s.evictable.filter(|id: BlockId| id < active),
                ..shrunk
            };
            let grown = restored(cleaned, s.active);
            &&& grown.active == s.active
            &&& grown.writing == s.writing
            &&& grown.reclaiming == s.reclaiming
            &&& forall|id: BlockId|
                id < active ==> (#[trigger] grown.clean.contains(id) <==> s.clean.contains(id))
            &&& forall|id: BlockId|
                id < active ==> (#[trigger] grown.evictable.contains(id)
                    <==> s.evictable.contains(id))
            &&& forall|id: BlockId| active <= id < s.active ==> #[trigger] grown.clean.contains(id)
        }),
{
    let shrunk = retired(s, active);
    let cleaned = State { evictable: s.evictable.filter(|id: BlockId| id < active), ..shrunk };
    let grown = restored(cleaned, s.active);
    let free = |id: BlockId| idle(cleaned, id);
    let keep = |id: BlockId| id < active;
    ids_with_members(active, s.active, free);
    let back = ids_with(active, s.active, free);
    assert(grown.clean == s.clean.filter(keep) + back);
    assert forall|id: BlockId| #[trigger] grown.clean.contains(id) <==> (s.clean.filter(
        keep,
    ).contains(id) || back.contains(id)) by {
        let a = s.clean.filter(keep);
        if a.contains(id) {
            let i = choose|i: int| 0 <= i < a.len() && a[i] == id;
            assert(grown.clean[i] == id);
        }
        if back.contains(id) {
            let i = choose|i: int| 0 <= i < back.len() && back[i] == id;
            assert(grown.clean[a.len() + i] == id);
        }
        if grown.clean.contains(id) {
            let i = choose|i: int| 0 <= i < grown.clean.len() && grown.clean[i] == id;
            if i < a.len() {
                assert(a[i] == id);
            } else {
                assert(back[i - a.len()] == id);
            }
        }
    }
    filter_members(s.clean, keep);
    assert forall|id: BlockId| id < active implies (#[trigger] grown.clean.contains(id)
        <==> s.clean.contains(id)) by {
        assert(s.clean.filter(keep).contains(id) <==> s.clean.contains(id) && keep(id));
    }
}

} // verus!
