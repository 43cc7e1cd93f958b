//! Devices of two kinds as one type, so that they can be combined.

use crate::device::{Device, Partition, PartitionId, RawFile, Request};
use crate::error::Error;
use std::sync::Arc;
use vstd::prelude::*;

verus! {

/// A partition of either kind.
pub enum EitherPartition<P, Q> {
    Left(Arc<P>),
    Right(Arc<Q>),
}

impl<P: Partition, Q: Partition<Stats = P::Stats>> Partition for EitherPartition<P, Q> {
    type Stats = P::Stats;

    open spec fn spec_id(&self) -> PartitionId {
        match self {
            EitherPartition::Left(p) => p.spec_id(),
            EitherPartition::Right(q) => q.spec_id(),
        }
    }

    open spec fn spec_size(&self) -> usize {
        match self {
            EitherPartition::Left(p) => p.spec_size(),
            EitherPartition::Right(q) => q.spec_size(),
        }
    }

    open spec fn spec_translate(&self, address: u64) -> (RawFile, u64) {
        match self {
            EitherPartition::Left(p) => p.spec_translate(address),
            EitherPartition::Right(q) => q.spec_translate(address),
        }
    }

    open spec fn spec_statistics(&self) -> Arc<P::Stats> {
        match self {
            EitherPartition::Left(p) => p.spec_statistics(),
            EitherPartition::Right(q) => q.spec_statistics(),
        }
    }

    fn id(&self) -> (id: PartitionId) {
        match self {
            EitherPartition::Left(p) => p.id(),
            EitherPartition::Right(q) => q.id(),
        }
    }

    fn size(&self) -> (size: usize) {
        match self {
            EitherPartition::Left(p) => p.size(),
            EitherPartition::Right(q) => q.size(),
        }
    }

    fn translate(&self, address: u64) -> (place: (RawFile, u64)) {
        match self {
            EitherPartition::Left(p) => p.translate(address),
            EitherPartition::Right(q) => q.translate(address),
        }
    }

    fn statistics(&self) -> (statistics: &Arc<P::Stats>) {
        match self {
            EitherPartition::Left(p) => p.statistics(),
            EitherPartition::Right(q) => q.statistics(),
        }
    }
}

/// A value of either kind.
pub enum Either<A, B> {
    Left(A),
    Right(B),
}

/// A device of either kind.
pub struct EitherDevice<A: Device, B: Device> {
    inner: Either<A, B>,
    partitions: Vec<Arc<EitherPartition<A::Part, B::Part>>>,
}

impl<A: Device, B: Device> EitherDevice<A, B> {
    pub closed spec fn spec_inner(self) -> Either<A, B> {
        self.inner
    }

    pub closed spec fn created(self) -> Seq<Arc<EitherPartition<A::Part, B::Part>>> {
        self.partitions@
    }

    /// Take a device of either kind. The partitions that it has are left alone.
    pub fn new(inner: Either<A, B>) -> (device: Self)
        ensures
            device.spec_inner() == inner,
            device.created() == Seq::<Arc<EitherPartition<A::Part, B::Part>>>::empty(),
    {
        EitherDevice { inner, partitions: Vec::new() }
    }
}

impl<A: Device, B: Device<Stats = A::Stats>> Device for EitherDevice<A, B> where
    A::Part: Partition,
    B::Part: Partition<Stats = <A::Part as Partition>::Stats>,
 {
    type Stats = A::Stats;

    type Part = EitherPartition<A::Part, B::Part>;

    open spec fn spec_capacity(&self) -> nat {
        match self.spec_inner() {
            Either::Left(a) => a.spec_capacity(),
            Either::Right(b) => b.spec_capacity(),
        }
    }

    open spec fn spec_allocated(&self) -> nat {
        match self.spec_inner() {
            Either::Left(a) => a.spec_allocated(),
            Either::Right(b) => b.spec_allocated(),
        }
    }

    open spec fn spec_partitions(&self) -> Seq<Arc<EitherPartition<A::Part, B::Part>>> {
        self.created()
    }

    open spec fn spec_statistics(&self) -> Arc<A::Stats> {
        match self.spec_inner() {
            Either::Left(a) => a.spec_statistics(),
            Either::Right(b) => b.spec_statistics(),
        }
    }

    open spec fn room(&self, size: usize) -> nat {
        match self.spec_inner() {
            Either::Left(a) => a.room(size),
            Either::Right(b) => b.room(size),
        }
    }

    open spec fn reliable(&self) -> bool {
        match self.spec_inner() {
            Either::Left(a) => a.reliable(),
            Either::Right(b) => b.reliable(),
        }
    }

    open spec fn requests(&self) -> Seq<Request> {
        match self.spec_inner() {
            Either::Left(a) => a.requests(),
            Either::Right(b) => b.requests(),
        }
    }

    open spec fn resizable(&self) -> bool {
        match self.spec_inner() {
            Either::Left(a) => a.resizable(),
            Either::Right(b) => b.resizable(),
        }
    }

    open spec fn lengths(&self) -> Seq<(u64, Option<Error>)> {
        match self.spec_inner() {
            Either::Left(a) => a.lengths(),
            Either::Right(b) => b.lengths(),
        }
    }

    open spec fn wf(&self) -> bool {
        match self.spec_inner() {
            Either::Left(a) => a.wf(),
            Either::Right(b) => b.wf(),
        }
    }

    proof fn wf_fits(&self) {
        match self.inner {
            Either::Left(a) => a.wf_fits(),
            Either::Right(b) => b.wf_fits(),
        }
    }

    proof fn room_fits(&self, size: usize) {
        match self.inner {
            Either::Left(a) => a.room_fits(size),
            Either::Right(b) => b.room_fits(size),
        }
    }

    fn capacity(&self) -> (capacity: usize) {
        match &self.inner {
            Either::Left(a) => a.capacity(),
            Either::Right(b) => b.capacity(),
        }
    }

    fn allocated(&self) -> (allocated: usize) {
        match &self.inner {
            Either::Left(a) => a.allocated(),
            Either::Right(b) => b.allocated(),
        }
    }

    fn create_partition(&mut self, size: usize) -> (r: Result<
        Arc<EitherPartition<A::Part, B::Part>>,
        Error,
    >)
        ensures
            match (old(self).spec_inner(), final(self).spec_inner()) {
                (Either::Left(before), Either::Left(after)) => r matches Ok(partition) ==> (
                *partition matches EitherPartition::Left(p) && after.spec_partitions()
                    == before.spec_partitions().push(p)),
                (Either::Right(before), Either::Right(after)) => r matches Ok(partition) ==> (
                *partition matches EitherPartition::Right(q) && after.spec_partitions()
                    == before.spec_partitions().push(q)),
                _ => false,
            },
    {
        let partition = match &mut self.inner {
            Either::Left(a) => match a.create_partition(size) {
                Ok(p) => EitherPartition::Left(p),
                Err(e) => return Err(e),
            },
            Either::Right(b) => match b.create_partition(size) {
                Ok(q) => EitherPartition::Right(q),
                Err(e) => return Err(e),
            },
        };
        let partition = Arc::new(partition);
        self.partitions.push(partition.clone());
        Ok(partition)
    }

    fn set_physical_len(&mut self, len: u64) -> (r: Result<(), Error>) {
        match &mut self.inner {
            Either::Left(a) => a.set_physical_len(len),
            Either::Right(b) => b.set_physical_len(len),
        }
    }

    fn partitions(&self) -> (partitions: usize) {
        self.partitions.len()
    }

    fn partition(&self, id: PartitionId) -> (partition: Arc<EitherPartition<A::Part, B::Part>>) {
        self.partitions[id as usize].clone()
    }

    fn statistics(&self) -> (statistics: &Arc<A::Stats>) {
        match &self.inner {
            Either::Left(a) => a.statistics(),
            Either::Right(b) => b.statistics(),
        }
    }
}

/// A partition of either kind is the one behind it.
pub proof fn either_partition_is_the_one_behind<P: Partition, Q: Partition<Stats = P::Stats>>(
    p: Arc<P>,
    q: Arc<Q>,
    address: u64,
)
    ensures
        EitherPartition::<P, Q>::Left(p).spec_id() == p.spec_id(),
        EitherPartition::<P, Q>::Left(p).spec_size() == p.spec_size(),
        EitherPartition::<P, Q>::Left(p).spec_translate(address) == p.spec_translate(address),
        EitherPartition::<P, Q>::Left(p).spec_statistics() == p.spec_statistics(),
        EitherPartition::<P, Q>::Right(q).spec_id() == q.spec_id(),
        EitherPartition::<P, Q>::Right(q).spec_size() == q.spec_size(),
        EitherPartition::<P, Q>::Right(q).spec_translate(address) == q.spec_translate(address),
        EitherPartition::<P, Q>::Right(q).spec_statistics() == q.spec_statistics(),
{
}

/// A device of either kind is as large as the one behind it, and has as much room.
pub proof fn either_device_is_the_one_behind<A: Device, B: Device<Stats = A::Stats>>(
    device: EitherDevice<A, B>,
    size: usize,
) where A::Part: Partition, B::Part: Partition<Stats = <A::Part as Partition>::Stats>
    ensures
        device.spec_inner() matches Either::Left(a) ==> {
            &&& device.spec_capacity() == a.spec_capacity()
            &&& device.spec_allocated() == a.spec_allocated()
            &&& device.spec_statistics() == a.spec_statistics()
            &&& device.room(size) == a.room(size)
            &&& device.reliable() == a.reliable()
            &&& device.requests() == a.requests()
            &&& device.resizable() == a.resizable()
            &&& device.lengths() == a.lengths()
            &&& device.wf() == a.wf()
        },
        device.spec_inner() matches Either::Right(b) ==> {
            &&& device.spec_capacity() == b.spec_capacity()
            &&& device.spec_allocated() == b.spec_allocated()
            &&& device.spec_statistics() == b.spec_statistics()
            &&& device.room(size) == b.room(size)
            &&& device.reliable() == b.reliable()
            &&& device.requests() == b.requests()
            &&& device.resizable() == b.resizable()
            &&& device.lengths() == b.lengths()
            &&& device.wf() == b.wf()
        },
{
}

} // verus!
