//! Devices, and the partitions that they are divided into.

use crate::error::{Error, ErrorKind};
use std::sync::Arc;
use vstd::prelude::*;

verus! {

/// The number of a partition of a device.
pub type PartitionId = u32;

/// The handle of an open file.
#[derive(Debug, Clone, Copy, PartialEq, Eq, Structural)]
pub struct RawFile(pub i32);

/// A part of a device.
pub trait Partition: Sized {
    /// The statistics that I/O on the partition is recorded in.
    type Stats;

    spec fn spec_id(&self) -> PartitionId;

    spec fn spec_size(&self) -> usize;

    spec fn spec_translate(&self, address: u64) -> (RawFile, u64);

    spec fn spec_statistics(&self) -> Arc<Self::Stats>;

    /// Get the number of the partition.
    fn id(&self) -> (id: PartitionId)
        ensures
            id == self.spec_id(),
    ;

    /// Get the size of the partition in bytes.
    fn size(&self) -> (size: usize)
        ensures
            size == self.spec_size(),
    ;

    /// Get the file, and the offset in it, that an address in the partition stands for.
    fn translate(&self, address: u64) -> (place: (RawFile, u64))
        ensures
            place == self.spec_translate(address),
    ;

    /// Get the statistics that I/O on the partition is recorded in.
    fn statistics(&self) -> (statistics: &Arc<Self::Stats>)
        ensures
            *statistics == self.spec_statistics(),
    ;
}

/// A request for a new partition, and its answer.
pub struct Request {
    /// The size that was asked for.
    pub size: usize,
    /// Why it was refused, `None` if it was granted.
    pub refusal: Option<Error>,
}

/// The answer to a request, as it is remembered.
pub open spec fn refusal_of<P>(r: Result<P, Error>) -> Option<Error> {
    match r {
        Ok(_) => None,
        Err(e) => Some(e),
    }
}

/// The request was refused for want of space.
pub open spec fn no_space(request: Request) -> bool {
    request.refusal matches Some(e) && e.spec_kind() == ErrorKind::NoSpace
}

/// The sum of the sizes of the first partitions.
pub open spec fn total_size<P: Partition>(partitions: Seq<Arc<P>>) -> nat
    decreases partitions.len(),
{
    if partitions.len() == 0 {
        0
    } else {
        total_size(partitions.drop_last()) + partitions.last().spec_size() as nat
    }
}

/// The partitions are numbered in order, and record into the given statistics.
pub open spec fn numbered<P: Partition>(partitions: Seq<Arc<P>>, statistics: Arc<P::Stats>) -> bool {
    forall|i: int|
        0 <= i < partitions.len() ==> {
            &&& (#[trigger] partitions[i]).spec_id() == i as PartitionId
            &&& partitions[i].spec_statistics() == statistics
        }
}

/// A device that can be divided into partitions.
///
/// A device grants a partition out of what is free, or refuses it. A refused request takes nothing.
/// Whether it refuses, and why, is up to the device, but it has room for a number of partitions of
/// each size, and refuses one for want of space only if that is used up.
pub trait Device: Sized {
    /// The statistics that I/O on the device is recorded in.
    type Stats;

    /// The partitions of the device.
    type Part: Partition;

    spec fn spec_capacity(&self) -> nat;

    spec fn spec_allocated(&self) -> nat;

    /// The partitions that were created, in their order.
    spec fn spec_partitions(&self) -> Seq<Arc<Self::Part>>;

    spec fn spec_statistics(&self) -> Arc<Self::Stats>;

    /// How many more partitions of the given size the device has room for.
    spec fn room(&self, size: usize) -> nat;

    /// The device refuses a partition for want of space alone.
    spec fn reliable(&self) -> bool;

    /// The requests that were made, in their order.
    spec fn requests(&self) -> Seq<Request>;

    /// What is behind the device can be extended and cut off.
    spec fn resizable(&self) -> bool;

    /// The lengths that what is behind the device was to be set to, in their order, each with why
    /// that failed, if it did.
    spec fn lengths(&self) -> Seq<(u64, Option<Error>)>;

    /// The device is in order.
    spec fn wf(&self) -> bool;

    /// What is taken of a device in order fits into it.
    proof fn wf_fits(&self)
        requires
            self.wf(),
        ensures
            self.spec_allocated() <= self.spec_capacity() <= usize::MAX,
    ;

    /// What a device in order has room for fits into what is free.
    proof fn room_fits(&self, size: usize)
        requires
            self.wf(),
        ensures
            self.room(size) * size <= self.spec_capacity() - self.spec_allocated(),
    ;

    /// Get the capacity of the device in bytes.
    fn capacity(&self) -> (capacity: usize)
        requires
            self.wf(),
        ensures
            capacity == self.spec_capacity(),
    ;

    /// Get how many bytes are taken by partitions.
    fn allocated(&self) -> (allocated: usize)
        requires
            self.wf(),
        ensures
            allocated == self.spec_allocated(),
    ;

    /// Get how many bytes are free.
    fn free(&self) -> (free: usize)
        requires
            self.wf(),
        ensures
            free == self.spec_capacity() - self.spec_allocated(),
    {
        proof {
            self.wf_fits();
        }
        self.capacity() - self.allocated()
    }

    /// Create a partition.
    fn create_partition(&mut self, size: usize) -> (r: Result<Arc<Self::Part>, Error>)
        requires
            old(self).wf(),
        ensures
            final(self).wf(),
            final(self).spec_capacity() == old(self).spec_capacity(),
            final(self).spec_statistics() == old(self).spec_statistics(),
            final(self).resizable() == old(self).resizable(),
            final(self).lengths() == old(self).lengths(),
            final(self).requests() == old(self).requests().push(
                (Request { size, refusal: refusal_of(r) }),
            ),
            old(self).reliable() ==> final(self).reliable() && (r matches Err(e) ==> e.spec_kind()
                == ErrorKind::NoSpace),
            match r {
                Ok(partition) => {
                    &&& partition.spec_size() == size
                    &&& final(self).spec_allocated() == old(self).spec_allocated() + size
                    &&& final(self).spec_partitions() == old(self).spec_partitions().push(partition)
                    &&& size > 0 ==> final(self).room(size) + 1 == old(self).room(size)
                },
                Err(e) => {
                    &&& final(self).spec_allocated() == old(self).spec_allocated()
                    &&& final(self).spec_partitions() == old(self).spec_partitions()
                    &&& final(self).room(size) == old(self).room(size)
                    &&& e.spec_kind() == ErrorKind::NoSpace ==> old(self).room(size) == 0
                },
            },
    ;

    /// Extend what is behind the device, or cut it off. Whether that can be done is up to the device;
    /// one that cannot be resized says so, and is not touched.
    fn set_physical_len(&mut self, len: u64) -> (r: Result<(), Error>)
        requires
            old(self).wf(),
        ensures
            final(self).wf(),
            final(self).spec_capacity() == old(self).spec_capacity(),
            final(self).spec_allocated() == old(self).spec_allocated(),
            final(self).spec_partitions() == old(self).spec_partitions(),
            final(self).spec_statistics() == old(self).spec_statistics(),
            final(self).requests() == old(self).requests(),
            final(self).resizable() == old(self).resizable(),
            if old(self).resizable() {
                final(self).lengths() == old(self).lengths().push((len, refusal_of(r)))
            } else {
                &&& r == Err::<(), Error>(Error::Unsupported)
                &&& final(self).lengths() == old(self).lengths()
            },
    ;

    /// Get the number of partitions.
    fn partitions(&self) -> (partitions: usize)
        requires
            self.wf(),
        ensures
            partitions == self.spec_partitions().len(),
    ;

    /// Get a partition.
    fn partition(&self, id: PartitionId) -> (partition: Arc<Self::Part>)
        requires
            self.wf(),
            id < self.spec_partitions().len(),
        ensures
            partition == self.spec_partitions()[id as int],
    ;

    /// Get the statistics that I/O on the device is recorded in.
    fn statistics(&self) -> (statistics: &Arc<Self::Stats>)
        ensures
            *statistics == self.spec_statistics(),
    ;
}

/// A partition without a file behind it.
#[derive(Debug)]
pub struct NoopPartition<S> {
    id: PartitionId,
    size: usize,
    statistics: Arc<S>,
}

impl<S> Partition for NoopPartition<S> {
    type Stats = S;

    closed spec fn spec_id(&self) -> PartitionId {
        self.id
    }

    closed spec fn spec_size(&self) -> usize {
        self.size
    }

    open spec fn spec_translate(&self, address: u64) -> (RawFile, u64) {
        (RawFile(0), 0)
    }

    closed spec fn spec_statistics(&self) -> Arc<S> {
        self.statistics
    }

    fn id(&self) -> (id: PartitionId) {
        self.id
    }

    fn size(&self) -> (size: usize) {
        self.size
    }

    fn translate(&self, address: u64) -> (place: (RawFile, u64)) {
        (RawFile(0), 0)
    }

    fn statistics(&self) -> (statistics: &Arc<S>) {
        &self.statistics
    }
}

/// A device without a file behind it. It grants every partition that fits into what is free.
pub struct NoopDevice<S> {
    capacity: usize,
    partitions: Vec<Arc<NoopPartition<S>>>,
    statistics: Arc<S>,
    requests: Ghost<Seq<Request>>,
}

impl<S> NoopDevice<S> {
    /// The partitions fit into the device, and are numbered in order.
    pub closed spec fn inv(self) -> bool {
        &&& total_size(self.partitions@) <= self.capacity
        &&& numbered(self.partitions@, self.statistics)
    }

    /// Create a device with the given capacity.
    pub fn new(capacity: usize, statistics: Arc<S>) -> (device: NoopDevice<S>)
        ensures
            device.wf(),
            device.spec_capacity() == capacity,
            device.spec_allocated() == 0,
            device.spec_statistics() == statistics,
            device.spec_partitions() == Seq::<Arc<NoopPartition<S>>>::empty(),
            device.requests() == Seq::<Request>::empty(),
    {
        NoopDevice { capacity, partitions: Vec::new(), statistics, requests: Ghost(Seq::empty()) }
    }
}

impl<S> Device for NoopDevice<S> {
    type Stats = S;

    type Part = NoopPartition<S>;

    closed spec fn spec_capacity(&self) -> nat {
        self.capacity as nat
    }

    open spec fn spec_allocated(&self) -> nat {
        total_size(self.spec_partitions())
    }

    closed spec fn spec_partitions(&self) -> Seq<Arc<NoopPartition<S>>> {
        self.partitions@
    }

    closed spec fn spec_statistics(&self) -> Arc<S> {
        self.statistics
    }

    /// There is room for as many as fit into what is free.
    open spec fn room(&self, size: usize) -> nat {
        if size == 0 {
            0
        } else {
            ((self.spec_capacity() - self.spec_allocated()) / size as int) as nat
        }
    }

    open spec fn reliable(&self) -> bool {
        true
    }

    closed spec fn requests(&self) -> Seq<Request> {
        self.requests@
    }

    open spec fn resizable(&self) -> bool {
        false
    }

    open spec fn lengths(&self) -> Seq<(u64, Option<Error>)> {
        Seq::empty()
    }

    open spec fn wf(&self) -> bool {
        self.inv()
    }

    proof fn wf_fits(&self) {
    }

    proof fn room_fits(&self, size: usize) {
        let free = self.spec_capacity() - self.spec_allocated();
        if size > 0 {
            let s = size as int;
            vstd::arithmetic::div_mod::lemma_div_pos_is_pos(free, s);
            vstd::arithmetic::div_mod::lemma_fundamental_div_mod(free, s);
            vstd::arithmetic::div_mod::lemma_mod_bound(free, s);
            assert((free / s) * s == s * (free / s)) by (nonlinear_arith);
        }
    }

    fn capacity(&self) -> (capacity: usize) {
        self.capacity
    }

    fn allocated(&self) -> (allocated: usize) {
        let mut sum: usize = 0;
        let mut i: usize = 0;
        while i < self.partitions.len()
            invariant
                self.wf(),
                i <= self.partitions@.len(),
                sum == total_size(self.partitions@.take(i as int)),
            decreases self.partitions@.len() - i,
        {
            let size: usize = self.partitions[i].size();
            proof {
                let next = self.partitions@.take(i + 1);
                assert(next.drop_last() =~= self.partitions@.take(i as int));
                total_size_monotonic(self.partitions@, i + 1);
            }
            sum = sum + size;
            i = i + 1;
        }
        assert(self.partitions@.take(i as int) =~= self.partitions@);
        sum
    }

    fn create_partition(&mut self, size: usize) -> (r: Result<Arc<NoopPartition<S>>, Error>)
        ensures
            r is Ok <==> size <= old(self).spec_capacity() - old(self).spec_allocated(),
            r matches Ok(partition) ==> {
                &&& partition.spec_id() == old(self).spec_partitions().len() as PartitionId
                &&& partition.spec_statistics() == old(self).spec_statistics()
            },
            r matches Err(e) ==> e.spec_kind() == ErrorKind::NoSpace,
    {
        let ghost free = self.spec_capacity() - self.spec_allocated();
        let allocated: usize = self.allocated();
        if size > self.capacity - allocated {
            let e = Error::NoSpace {
                capacity: self.capacity,
                allocated,
                required: allocated.saturating_add(size),
            };
            proof {
                self.requests@ = self.requests@.push(Request { size, refusal: Some(e) });
                vstd::arithmetic::div_mod::lemma_basic_div(free, size as int);
            }
            return Err(e);
        }
        let id: PartitionId = self.partitions.len() as PartitionId;
        let partition = Arc::new(
            NoopPartition { id, size, statistics: self.statistics.clone() },
        );
        self.partitions.push(partition.clone());
        proof {
            self.requests@ = self.requests@.push(Request { size, refusal: None });
            assert(self.partitions@.drop_last() =~= old(self).partitions@);
            if size > 0 {
                vstd::arithmetic::div_mod::lemma_div_minus_one(free, size as int);
                vstd::arithmetic::div_mod::lemma_div_pos_is_pos(free - size, size as int);
            }
        }
        Ok(partition)
    }

    /// There is nothing to extend or to cut off.
    fn set_physical_len(&mut self, len: u64) -> (r: Result<(), Error>)
        ensures
            r == Err::<(), Error>(Error::Unsupported),
            *final(self) == *old(self),
    {
        Err(Error::Unsupported)
    }

    fn partitions(&self) -> (partitions: usize) {
        self.partitions.len()
    }

    fn partition(&self, id: PartitionId) -> (partition: Arc<NoopPartition<S>>) {
        self.partitions[id as usize].clone()
    }

    fn statistics(&self) -> (statistics: &Arc<S>) {
        &self.statistics
    }
}

/// The sizes of partitions add up.
pub proof fn sizes_add_up<P: Partition>(partitions: Seq<Arc<P>>, partition: Arc<P>)
    ensures
        total_size(Seq::<Arc<P>>::empty()) == 0,
        total_size(partitions.push(partition)) == total_size(partitions) + partition.spec_size(),
{
    assert(partitions.push(partition).drop_last() =~= partitions);
}

/// A device without a file has room for as many partitions as fit into what is free, and with one more
/// they would not fit.
pub proof fn room_is_used_up<S>(device: NoopDevice<S>, size: usize)
    requires
        device.wf(),
        size > 0,
    ensures
        ({
            let free = device.spec_capacity() - device.spec_allocated();
            device.room(size) * size <= free < (device.room(size) + 1) * size
        }),
{
    let free = device.spec_capacity() - device.spec_allocated();
    let s = size as int;
    device.wf_fits();
    device.room_fits(size);
    vstd::arithmetic::div_mod::lemma_div_pos_is_pos(free, s);
    vstd::arithmetic::div_mod::lemma_fundamental_div_mod(free, s);
    vstd::arithmetic::div_mod::lemma_mod_bound(free, s);
    let q = free / s;
    assert((q + 1) * s == s * q + s) by (nonlinear_arith);
}

/// Partitions are numbered from zero on, one after the other, and share the statistics.
pub proof fn partitions_are_numbered<P: Partition>(
    partitions: Seq<Arc<P>>,
    statistics: Arc<P::Stats>,
    partition: Arc<P>,
)
    requires
        numbered(partitions, statistics),
    ensures
        numbered(partitions.push(partition), statistics) <==> partition.spec_id()
            == partitions.len() as PartitionId && partition.spec_statistics() == statistics,
{
    let all = partitions.push(partition);
    assert(all[partitions.len() as int] == partition);
    if partition.spec_id() == partitions.len() as PartitionId && partition.spec_statistics()
        == statistics {
        assert forall|i: int| 0 <= i < all.len() implies (#[trigger] all[i]).spec_id()
            == i as PartitionId && all[i].spec_statistics() == statistics by {
            if i < partitions.len() {
                assert(all[i] == partitions[i]);
            }
        }
    }
}

/// What is remembered of a request is whether it was refused, and why.
pub proof fn answers_are_remembered<P>(r: Result<P, Error>)
    ensures
        r is Ok <==> refusal_of(r) is None,
        r matches Err(e) ==> refusal_of(r) == Some(e),
{
}

/// The first partitions do not take more than all of them.
pub proof fn total_size_monotonic<P: Partition>(partitions: Seq<Arc<P>>, n: int)
    requires
        0 <= n <= partitions.len(),
    ensures
        total_size(partitions.take(n)) <= total_size(partitions),
    decreases partitions.len(),
{
    if n < partitions.len() {
        total_size_monotonic(partitions.drop_last(), n);
        assert(partitions.drop_last().take(n) =~= partitions.take(n));
    } else {
        assert(partitions.take(n) =~= partitions);
    }
}

} // verus!
