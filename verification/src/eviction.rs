//! Which block to evict next.

use crate::device::Partition;
use crate::indexer::BlockId;
use crate::manager::Block;
use std::collections::{HashSet, VecDeque};
use vstd::prelude::*;

verus! {

broadcast use vstd::std_specs::hash::group_hash_axioms;

/// What an eviction picker can look at.
pub struct EvictionInfo<'a, P: Partition> {
    /// All blocks of the disk cache.
    pub blocks: &'a Vec<Block<P>>,
    /// The blocks that can be evicted.
    pub evictable: &'a HashSet<BlockId>,
    /// The number of clean blocks.
    pub clean: usize,
}

/// What an eviction picker has seen.
pub struct Seen<P: Partition> {
    pub blocks: Seq<Block<P>>,
    pub evictable: Set<BlockId>,
    pub clean: nat,
}

impl<'a, P: Partition> View for EvictionInfo<'a, P> {
    type V = Seen<P>;

    open spec fn view(&self) -> Seen<P> {
        Seen { blocks: self.blocks@, evictable: self.evictable@, clean: self.clean as nat }
    }
}

/// A call of an eviction picker.
pub enum PickerEvent<P: Partition> {
    /// The disk cache was opened with these blocks, all of the given size.
    Opened { blocks: Seq<BlockId>, block_size: usize },
    /// The block became evictable.
    Evictable { seen: Seen<P>, block: BlockId },
    /// The picker was asked for a block.
    Asked { seen: Seen<P>, picked: Option<BlockId> },
    /// The block was evicted.
    Evicted { seen: Seen<P>, block: BlockId },
}

/// Picks the block to evict next.
pub trait EvictionPicker<P: Partition>: Sized {
    /// The calls of the picker, in their order.
    spec fn history(&self) -> Seq<PickerEvent<P>>;

    /// Tell the picker about all blocks and their size.
    fn init(&mut self, blocks: &Vec<BlockId>, block_size: usize)
        ensures
            final(self).history() == old(self).history().push(
                (PickerEvent::Opened { blocks: blocks@, block_size }),
            ),
    ;

    /// Pick one of the evictable blocks, or none.
    fn pick(&mut self, info: EvictionInfo<P>) -> (picked: Option<BlockId>)
        ensures
            final(self).history() == old(self).history().push(
                (PickerEvent::Asked { seen: info@, picked }),
            ),
            picked matches Some(block) ==> info.evictable@.contains(block),
    ;

    /// Tell the picker that a block became evictable.
    fn on_block_evictable(&mut self, info: EvictionInfo<P>, block: BlockId)
        ensures
            final(self).history() == old(self).history().push(
                (PickerEvent::Evictable { seen: info@, block }),
            ),
    ;

    /// Tell the picker that a block was evicted.
    fn on_block_evict(&mut self, info: EvictionInfo<P>, block: BlockId)
        ensures
            final(self).history() == old(self).history().push(
                (PickerEvent::Evicted { seen: info@, block }),
            ),
    ;
}

/// The blocks that became evictable and were not evicted since, oldest first.
pub open spec fn queue_of<P: Partition>(history: Seq<PickerEvent<P>>) -> Seq<BlockId>
    decreases history.len(),
{
    if history.len() == 0 {
        Seq::empty()
    } else {
        let queue = queue_of(history.drop_last());
        match history.last() {
            PickerEvent::Evictable { block, .. } => queue.push(block),
            PickerEvent::Evicted { block, .. } => {
                let at = position(queue, block);
                if at < queue.len() {
                    queue.remove(at)
                } else {
                    queue
                }
            },
            _ => queue,
        }
    }
}

/// Blocks that become evictable one after the other join the queue in that order.
pub proof fn queue_keeps_order<P: Partition>(
    history: Seq<PickerEvent<P>>,
    events: Seq<PickerEvent<P>>,
    order: Seq<BlockId>,
)
    requires
        events.len() == order.len(),
        forall|i: int|
            0 <= i < events.len() ==> ((#[trigger] events[i]) matches PickerEvent::Evictable {
                block,
                ..
            } && block == order[i]),
    ensures
        queue_of(history + events) == queue_of(history) + order,
    decreases events.len(),
{
    if events.len() == 0 {
        assert(history + events =~= history);
        assert(queue_of(history) + order =~= queue_of(history));
    } else {
        let rest = events.drop_last();
        assert forall|i: int| 0 <= i < rest.len() implies ((
        #[trigger] rest[i]) matches PickerEvent::Evictable { block, .. } && block
            == order.drop_last()[i]) by {
            assert(rest[i] == events[i]);
        }
        queue_keeps_order(history, rest, order.drop_last());
        assert((history + events).drop_last() =~= history + rest);
        assert((history + events).last() == events.last());
        assert(events.last() == events[events.len() - 1]);
        assert(queue_of(history + events) =~= queue_of(history) + order);
    }
}

/// The first position of a block is one at which it is, and there is none before. Without the block it
/// is the length of the queue.
pub proof fn position_is_first(queue: Seq<BlockId>, block: BlockId)
    ensures
        0 <= position(queue, block) <= queue.len(),
        position(queue, block) < queue.len() ==> queue[position(queue, block)] == block,
        forall|i: int| 0 <= i < position(queue, block) ==> #[trigger] queue[i] != block,
    decreases queue.len(),
{
    if queue.len() > 0 && queue[0] != block {
        let rest = queue.drop_first();
        position_is_first(rest, block);
        assert forall|i: int| 0 <= i < position(queue, block) implies #[trigger] queue[i]
            != block by {
            if i > 0 {
                assert(rest[i - 1] == queue[i]);
            }
        }
    }
}

/// A block joins the queue at its end when it becomes evictable, and leaves it from where it is when it
/// is evicted. The others stay in their order, and nothing else changes the queue.
pub proof fn queue_follows_the_calls<P: Partition>(
    history: Seq<PickerEvent<P>>,
    seen: Seen<P>,
    block: BlockId,
    a: Seq<BlockId>,
    b: Seq<BlockId>,
    blocks: Seq<BlockId>,
    block_size: usize,
    picked: Option<BlockId>,
)
    ensures
        queue_of(Seq::<PickerEvent<P>>::empty()) == Seq::<BlockId>::empty(),
        queue_of(history.push(PickerEvent::Evictable { seen, block })) == queue_of(history).push(
            block,
        ),
        queue_of(history) == a.push(block) + b && !a.contains(block) ==> queue_of(
            history.push(PickerEvent::Evicted { seen, block }),
        ) == a + b,
        !queue_of(history).contains(block) ==> queue_of(
            history.push(PickerEvent::Evicted { seen, block }),
        ) == queue_of(history),
        queue_of(history.push(PickerEvent::Opened { blocks, block_size })) == queue_of(history),
        queue_of(history.push(PickerEvent::Asked { seen, picked })) == queue_of(history),
{
    let queue = queue_of(history);
    assert(history.push(PickerEvent::Evictable { seen, block }).drop_last() =~= history);
    assert(history.push(PickerEvent::Evicted { seen, block }).drop_last() =~= history);
    assert(history.push(PickerEvent::Opened { blocks, block_size }).drop_last() =~= history);
    assert(history.push(PickerEvent::Asked { seen, picked }).drop_last() =~= history);
    position_is_first(queue, block);
    let at = position(queue, block);
    if queue == a.push(block) + b && !a.contains(block) {
        assert(queue[a.len() as int] == block);
        if at < a.len() {
            assert(a[at] == queue[at]);
            assert(a.contains(block));
        }
        assert(at == a.len());
        assert(queue.remove(at) =~= a + b);
    }
    if !queue.contains(block) && at < queue.len() {
        assert(queue.contains(queue[at]));
    }
}

/// The queue of a picker, and the calls that it follows from.
struct Fifo<P: Partition> {
    queue: VecDeque<BlockId>,
    history: Ghost<Seq<PickerEvent<P>>>,
}

impl<P: Partition> Fifo<P> {
    fn new() -> (fifo: Self)
        ensures
            fifo.queue@ == Seq::<BlockId>::empty(),
            fifo.history@ == Seq::<PickerEvent<P>>::empty(),
    {
        Fifo { queue: VecDeque::new(), history: Ghost(Seq::empty()) }
    }
}

/// A picker that picks the block that has been evictable for the longest time.
pub struct FifoPicker<P: Partition> {
    inner: Fifo<P>,
}

/// The first position of `block` in `queue`, or its length if there is none.
pub open spec fn position(queue: Seq<BlockId>, block: BlockId) -> int
    decreases queue.len(),
{
    if queue.len() == 0 || queue[0] == block {
        0
    } else {
        1 + position(queue.drop_first(), block)
    }
}

proof fn position_first(queue: Seq<BlockId>, block: BlockId, at: int)
    requires
        0 <= at <= queue.len(),
        forall|i: int| 0 <= i < at ==> queue[i] != block,
        at < queue.len() ==> queue[at] == block,
    ensures
        position(queue, block) == at,
    decreases queue.len(),
{
    if queue.len() > 0 && at > 0 {
        position_first(queue.drop_first(), block, at - 1);
    }
}

impl<P: Partition> FifoPicker<P> {
    #[verifier::type_invariant]
    spec fn in_step(self) -> bool {
        self.inner.queue@ == queue_of(self.inner.history@)
    }

    /// Create a picker.
    pub fn new() -> (picker: Self)
        ensures
            picker.history() == Seq::<PickerEvent<P>>::empty(),
    {
        FifoPicker { inner: Fifo::new() }
    }
}

impl<P: Partition> EvictionPicker<P> for FifoPicker<P> {
    closed spec fn history(&self) -> Seq<PickerEvent<P>> {
        self.inner.history@
    }

    fn init(&mut self, blocks: &Vec<BlockId>, block_size: usize) {
        proof {
            use_type_invariant(&*self);
        }
        let mut inner = Fifo::new();
        std::mem::swap(&mut self.inner, &mut inner);
        let ghost now = inner.history@.push(PickerEvent::Opened { blocks: blocks@, block_size });
        assert(now.drop_last() =~= inner.history@);
        self.inner = Fifo { queue: inner.queue, history: Ghost(now) };
    }

    /// Pick the first block of the queue that is evictable.
    fn pick(&mut self, info: EvictionInfo<P>) -> (picked: Option<BlockId>)
        ensures
            ({
                let queue = queue_of(old(self).history());
                match picked {
                    Some(block) => exists|at: int|
                        {
                            &&& 0 <= at < queue.len()
                            &&& #[trigger] queue[at] == block
                            &&& forall|i: int|
                                0 <= i < at ==> !info.evictable@.contains(#[trigger] queue[i])
                        },
                    None => forall|i: int|
                        0 <= i < queue.len() ==> !info.evictable@.contains(#[trigger] queue[i]),
                }
            }),
    {
        proof {
            use_type_invariant(&*self);
        }
        let mut inner = Fifo::new();
        std::mem::swap(&mut self.inner, &mut inner);
        let ghost queue = queue_of(old(self).history());
        let mut picked: Option<BlockId> = None;
        let mut i: usize = 0;
        while i < inner.queue.len() && picked.is_none()
            invariant
                inner.queue@ == queue,
                i <= queue.len(),
                match picked {
                    Some(block) => {
                        &&& 0 < i
                        &&& queue[i - 1] == block
                        &&& info.evictable@.contains(block)
                        &&& forall|j: int|
                            0 <= j < i - 1 ==> !info.evictable@.contains(#[trigger] queue[j])
                    },
                    None => forall|j: int|
                        0 <= j < i ==> !info.evictable@.contains(#[trigger] queue[j]),
                },
            decreases inner.queue@.len() - i,
        {
            let block: BlockId = inner.queue[i];
            if info.evictable.contains(&block) {
                picked = Some(block);
            }
            i = i + 1;
        }
        let ghost now = inner.history@.push(PickerEvent::Asked { seen: info@, picked });
        assert(now.drop_last() =~= inner.history@);
        self.inner = Fifo { queue: inner.queue, history: Ghost(now) };
        picked
    }

    fn on_block_evictable(&mut self, info: EvictionInfo<P>, block: BlockId) {
        proof {
            use_type_invariant(&*self);
        }
        let mut inner = Fifo::new();
        std::mem::swap(&mut self.inner, &mut inner);
        inner.queue.push_back(block);
        let ghost now = inner.history@.push(PickerEvent::Evictable { seen: info@, block });
        assert(now.drop_last() =~= inner.history@);
        self.inner = Fifo { queue: inner.queue, history: Ghost(now) };
    }

    fn on_block_evict(&mut self, info: EvictionInfo<P>, block: BlockId) {
        proof {
            use_type_invariant(&*self);
        }
        let mut inner = Fifo::new();
        std::mem::swap(&mut self.inner, &mut inner);
        let ghost queue = inner.queue@;
        let mut i: usize = 0;
        while i < inner.queue.len() && inner.queue[i] != block
            invariant
                inner.queue@ == queue,
                i <= queue.len(),
                forall|j: int| 0 <= j < i ==> queue[j] != block,
            decreases queue.len() - i,
        {
            i = i + 1;
        }
        proof {
            position_first(queue, block, i as int);
        }
        if i < inner.queue.len() {
            inner.queue.remove(i);
        }
        let ghost now = inner.history@.push(PickerEvent::Evicted { seen: info@, block });
        assert(now.drop_last() =~= inner.history@);
        self.inner = Fifo { queue: inner.queue, history: Ghost(now) };
    }
}

} // verus!
