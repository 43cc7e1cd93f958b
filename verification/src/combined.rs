//! A device that is made of several devices.

use crate::device::{no_space, numbered, refusal_of, Device, Partition, PartitionId, RawFile, Request};
use crate::error::{Error, ErrorKind};
use crate::statistics::Throttle;
use std::sync::Arc;
use vstd::prelude::*;

verus! {

/// Builder for a combined device that wraps multiple devices and allows access to their blocks.
///
/// The throttle and statistics of the combined device will override the inner devices' throttles
/// and statistics.
pub struct CombinedDeviceBuilder<D: Device> {
    devices: Vec<D>,
    throttle: Throttle,
}

impl<D: Device> CombinedDeviceBuilder<D> {
    pub closed spec fn spec_devices(self) -> Seq<D> {
        self.devices@
    }

    pub closed spec fn spec_throttle(self) -> Throttle {
        self.throttle
    }

    /// Create a new combined device builder with empty devices.
    pub fn new() -> (builder: Self)
        ensures
            builder.spec_devices() == Seq::<D>::empty(),
            builder.spec_throttle() == Throttle::unlimited(),
    {
        CombinedDeviceBuilder { devices: Vec::new(), throttle: Throttle::new() }
    }

    /// Add a device to the combined device builder.
    pub fn with_device(self, device: D) -> (builder: Self)
        ensures
            builder.spec_devices() == self.spec_devices().push(device),
            builder.spec_throttle() == self.spec_throttle(),
    {
        let mut builder = self;
        builder.devices.push(device);
        builder
    }

    /// Set the throttle for the combined device to override the inner devices' throttles.
    ///
    /// The throttles of the combined devices are disabled by default.
    pub fn with_throttle(self, throttle: Throttle) -> (builder: Self)
        ensures
            builder.spec_devices() == self.spec_devices(),
            builder.spec_throttle() == throttle,
    {
        let mut builder = self;
        builder.throttle = throttle;
        builder
    }

    /// Build the combined device. Its statistics are made by `statistics` out of the throttle.
    pub fn build<S, F: FnOnce(Throttle) -> S>(self, statistics: F) -> (r: Result<
        CombinedDevice<D, S>,
        Error,
    >)
        requires
            statistics.requires((self.spec_throttle(),)),
        ensures
            r matches Ok(device) && {
                &&& device.spec_devices() == self.spec_devices()
                &&& device.spec_next() == 0
                &&& device.spec_partitions() == Seq::<Arc<CombinedPartition<D::Part, S>>>::empty()
                &&& device.requests() == Seq::<Request>::empty()
                &&& statistics.ensures((self.spec_throttle(),), *device.spec_statistics())
                &&& device.wf() <==> in_order(self.spec_devices())
            },
    {
        let statistics = Arc::new(statistics(self.throttle));
        let device = CombinedDevice {
            devices: self.devices,
            partitions: Vec::new(),
            next: 0,
            statistics,
            requests: Ghost(Seq::empty()),
        };
        Ok(device)
    }
}

impl<D: Device> Default for CombinedDeviceBuilder<D> {
    fn default() -> (builder: Self)
        ensures
            builder.spec_devices() == Seq::<D>::empty(),
            builder.spec_throttle() == Throttle::unlimited(),
    {
        Self::new()
    }
}

/// The sum of the capacities of the devices.
pub open spec fn capacity_of<D: Device>(devices: Seq<D>) -> nat
    decreases devices.len(),
{
    if devices.len() == 0 {
        0
    } else {
        capacity_of(devices.drop_last()) + devices.last().spec_capacity()
    }
}

/// The sum of what is taken of the devices.
pub open spec fn allocated_of<D: Device>(devices: Seq<D>) -> nat
    decreases devices.len(),
{
    if devices.len() == 0 {
        0
    } else {
        allocated_of(devices.drop_last()) + devices.last().spec_allocated()
    }
}

/// The devices are in order, and their capacities can be added up.
pub open spec fn in_order<D: Device>(devices: Seq<D>) -> bool {
    &&& capacity_of(devices) <= usize::MAX
    &&& forall|i: int| 0 <= i < devices.len() ==> (#[trigger] devices[i]).wf()
}

proof fn sums_monotonic<D: Device>(devices: Seq<D>, n: int)
    requires
        0 <= n <= devices.len(),
        forall|i: int| 0 <= i < devices.len() ==> (#[trigger] devices[i]).wf(),
    ensures
        capacity_of(devices.take(n)) <= capacity_of(devices),
        allocated_of(devices.take(n)) <= allocated_of(devices),
        allocated_of(devices) <= capacity_of(devices),
    decreases devices.len(),
{
    if devices.len() > 0 {
        let rest = devices.drop_last();
        assert forall|i: int| 0 <= i < rest.len() implies (#[trigger] rest[i]).wf() by {
            assert(rest[i] == devices[i]);
        }
        assert(devices.last().wf());
        devices.last().wf_fits();
        if n < devices.len() {
            sums_monotonic(rest, n);
            assert(rest.take(n) =~= devices.take(n));
        } else {
            sums_monotonic(rest, n - 1);
            assert(devices.take(n) =~= devices);
        }
    } else {
        assert(devices.take(n) =~= devices);
    }
}

/// Devices that are combined have the capacity of all of them together, and what is taken of each of
/// them is taken of all. They have room for what each of those that are still asked has room for.
pub proof fn devices_add_up<D: Device>(devices: Seq<D>, device: D, from: int, size: usize)
    requires
        0 <= from,
    ensures
        capacity_of(Seq::<D>::empty()) == 0,
        allocated_of(Seq::<D>::empty()) == 0,
        capacity_of(devices.push(device)) == capacity_of(devices) + device.spec_capacity(),
        allocated_of(devices.push(device)) == allocated_of(devices) + device.spec_allocated(),
        from >= devices.len() ==> room_of(devices, from, size) == 0,
        from <= devices.len() ==> room_of(devices.push(device), from, size) == room_of(
            devices,
            from,
            size,
        ) + device.room(size),
{
    assert(devices.push(device).drop_last() =~= devices);
}

/// A partition of a combined device is that of the device that it lies on: it has its size, and its
/// addresses stand for the same places.
pub proof fn partition_lies_on_its_device<P: Partition, S>(
    partition: CombinedPartition<P, S>,
    address: u64,
)
    ensures
        partition.spec_size() == partition.spec_inner().spec_size(),
        partition.spec_translate(address) == partition.spec_inner().spec_translate(address),
{
}

/// A partition is created on the first device that does not refuse it for want of space: those before
/// it were asked and had none, and the others were left alone.
pub proof fn devices_are_asked_in_order<D: Device>(
    before: Seq<D>,
    after: Seq<D>,
    size: usize,
    from: int,
    to: int,
    i: int,
)
    requires
        0 <= to < after.len(),
        no_space_on(before, except(before, after, to), size, from, to),
        0 <= i < after.len(),
    ensures
        before.len() == after.len(),
        i != to && !(from <= i < to) ==> after[i] == before[i],
        from <= i < to ==> {
            let requests = after[i].requests();
            &&& requests.len() == before[i].requests().len() + 1
            &&& requests.take(before[i].requests().len() as int) == before[i].requests()
            &&& requests[before[i].requests().len() as int].size == size
            &&& requests[before[i].requests().len() as int].refusal matches Some(e) && e is NoSpace
        },
{
    let rest = except(before, after, to);
    assert(rest.len() == after.len());
    if i != to {
        assert(rest[i] == after[i]);
    }
    if from <= i < to {
        let requests = after[i].requests();
        assert(refused_for_space(before[i], rest[i], size));
        assert(requests.take(before[i].requests().len() as int) =~= before[i].requests());
    }
}

/// Replacing a device changes the sums by what it changes.
proof fn sums_update<D: Device>(devices: Seq<D>, n: int, device: D)
    requires
        0 <= n < devices.len(),
    ensures
        capacity_of(devices.update(n, device)) == capacity_of(devices) - devices[n].spec_capacity()
            + device.spec_capacity(),
        allocated_of(devices.update(n, device)) == allocated_of(devices)
            - devices[n].spec_allocated() + device.spec_allocated(),
    decreases devices.len(),
{
    let rest = devices.drop_last();
    if n < devices.len() - 1 {
        sums_update(rest, n, device);
        assert(devices.update(n, device).drop_last() =~= rest.update(n, device));
    } else {
        assert(devices.update(n, device).drop_last() =~= rest);
    }
}

/// `after` is `before` once it was asked for a partition of the given size, and had no space.
pub open spec fn refused_for_space<D: Device>(before: D, after: D, size: usize) -> bool {
    let requests = after.requests();
    &&& requests == before.requests().push(requests.last())
    &&& requests.last().size == size
    &&& no_space(requests.last())
}

/// Every device refuses a partition for want of space alone.
pub open spec fn all_reliable<D: Device>(devices: Seq<D>) -> bool {
    forall|i: int| 0 <= i < devices.len() ==> (#[trigger] devices[i]).reliable()
}

/// How many partitions of the given size the devices from the `from`th on have room for.
pub open spec fn room_of<D: Device>(devices: Seq<D>, from: int, size: usize) -> nat
    decreases devices.len(),
{
    if devices.len() == 0 || devices.len() <= from {
        0
    } else {
        room_of(devices.drop_last(), from, size) + devices.last().room(size)
    }
}

proof fn room_of_fits<D: Device>(devices: Seq<D>, from: int, size: usize)
    requires
        forall|i: int| 0 <= i < devices.len() ==> (#[trigger] devices[i]).wf(),
    ensures
        room_of(devices, from, size) * size <= capacity_of(devices) - allocated_of(devices),
    decreases devices.len(),
{
    if devices.len() > 0 {
        let rest = devices.drop_last();
        assert forall|i: int| 0 <= i < rest.len() implies (#[trigger] rest[i]).wf() by {
            assert(rest[i] == devices[i]);
        }
        assert(devices.last().wf());
        devices.last().wf_fits();
        devices.last().room_fits(size);
        room_of_fits(rest, from, size);
        let a = room_of(rest, from, size);
        let b = devices.last().room(size);
        assert((a + b) * size == a * size + b * size) by (nonlinear_arith);
        assert(0nat * size == 0) by (nonlinear_arith);
        sums_monotonic(rest, 0);
    } else {
        assert(0nat * size == 0) by (nonlinear_arith);
    }
}

/// Replacing a device changes the room by what it changes.
proof fn room_update<D: Device>(devices: Seq<D>, from: int, size: usize, n: int, device: D)
    requires
        0 <= n < devices.len(),
        from <= n,
    ensures
        room_of(devices.update(n, device), from, size) == room_of(devices, from, size)
            - devices[n].room(size) + device.room(size),
    decreases devices.len(),
{
    let rest = devices.drop_last();
    if n < devices.len() - 1 {
        room_update(rest, from, size, n, device);
        assert(devices.update(n, device).drop_last() =~= rest.update(n, device));
    } else {
        assert(devices.update(n, device).drop_last() =~= rest);
    }
}

/// To pass over a device leaves the room of the others.
proof fn room_step<D: Device>(devices: Seq<D>, from: int, size: usize)
    requires
        0 <= from < devices.len(),
    ensures
        room_of(devices, from, size) == devices[from].room(size) + room_of(devices, from + 1, size),
    decreases devices.len(),
{
    let rest = devices.drop_last();
    if from < rest.len() {
        room_step(rest, from, size);
    } else {
        assert(room_of(rest, from, size) == 0);
    }
}

/// The devices `from..to` were asked for a partition of the given size, and had no space. No other
/// device was touched.
pub open spec fn no_space_on<D: Device>(
    before: Seq<D>,
    after: Seq<D>,
    size: usize,
    from: int,
    to: int,
) -> bool {
    &&& before.len() == after.len()
    &&& forall|i: int|
        from <= i < to ==> refused_for_space(before[i], #[trigger] after[i], size)
    &&& forall|i: int|
        0 <= i < after.len() && !(from <= i < to) ==> #[trigger] after[i] == before[i]
}

/// What is left of the devices without the one at `at`.
pub open spec fn except<D: Device>(before: Seq<D>, after: Seq<D>, at: int) -> Seq<D> {
    after.update(at, before[at])
}

/// [`CombinedDevice`] is a wrapper for other devices to use them as one.
pub struct CombinedDevice<D: Device, S> {
    devices: Vec<D>,
    partitions: Vec<Arc<CombinedPartition<D::Part, S>>>,
    next: usize,
    statistics: Arc<S>,
    requests: Ghost<Seq<Request>>,
}

impl<D: Device, S> CombinedDevice<D, S> {
    pub closed spec fn spec_devices(self) -> Seq<D> {
        self.devices@
    }

    /// The device that is asked for the next partition.
    pub closed spec fn spec_next(self) -> usize {
        self.next
    }
}

impl<D: Device, S> Device for CombinedDevice<D, S> {
    type Stats = S;

    type Part = CombinedPartition<D::Part, S>;

    open spec fn spec_capacity(&self) -> nat {
        capacity_of(self.spec_devices())
    }

    open spec fn spec_allocated(&self) -> nat {
        allocated_of(self.spec_devices())
    }

    closed spec fn spec_partitions(&self) -> Seq<Arc<CombinedPartition<D::Part, S>>> {
        self.partitions@
    }

    closed spec fn spec_statistics(&self) -> Arc<S> {
        self.statistics
    }

    /// There is room on the device that is asked next, and on those behind it.
    open spec fn room(&self, size: usize) -> nat {
        room_of(self.spec_devices(), self.spec_next() as int, size)
    }

    open spec fn reliable(&self) -> bool {
        all_reliable(self.spec_devices())
    }

    closed spec fn requests(&self) -> Seq<Request> {
        self.requests@
    }

    open spec fn resizable(&self) -> bool {
        false
    }

    open spec fn lengths(&self) -> Seq<(u64, Option<Error>)> {
        Seq::empty()
    }

    open spec fn wf(&self) -> bool {
        &&& in_order(self.spec_devices())
        &&& numbered(self.spec_partitions(), self.spec_statistics())
    }

    proof fn wf_fits(&self) {
        sums_monotonic(self.devices@, 0);
    }

    proof fn room_fits(&self, size: usize) {
        room_of_fits(self.devices@, self.next as int, size);
    }

    fn capacity(&self) -> (capacity: usize) {
        let mut sum: usize = 0;
        let mut i: usize = 0;
        while i < self.devices.len()
            invariant
                self.wf(),
                i <= self.devices@.len(),
                sum == capacity_of(self.devices@.take(i as int)),
            decreases self.devices@.len() - i,
        {
            proof {
                assert(self.devices@.take(i + 1).drop_last() =~= self.devices@.take(i as int));
                sums_monotonic(self.devices@, i + 1);
            }
            sum = sum + self.devices[i].capacity();
            i = i + 1;
        }
        assert(self.devices@.take(i as int) =~= self.devices@);
        sum
    }

    fn allocated(&self) -> (allocated: usize) {
        let mut sum: usize = 0;
        let mut i: usize = 0;
        while i < self.devices.len()
            invariant
                self.wf(),
                i <= self.devices@.len(),
                sum == allocated_of(self.devices@.take(i as int)),
            decreases self.devices@.len() - i,
        {
            proof {
                assert(self.devices@.take(i + 1).drop_last() =~= self.devices@.take(i as int));
                sums_monotonic(self.devices@, i + 1);
            }
            sum = sum + self.devices[i].allocated();
            i = i + 1;
        }
        assert(self.devices@.take(i as int) =~= self.devices@);
        sum
    }

    /// Create a partition on the first device, from the one that was asked last, that does not
    /// refuse it for want of space. A device that did refuse is not asked again.
    fn create_partition(&mut self, size: usize) -> (r: Result<
        Arc<CombinedPartition<D::Part, S>>,
        Error,
    >)
        ensures
            ({
                let before = old(self).spec_devices();
                let after = final(self).spec_devices();
                let from = old(self).spec_next() as int;
                let to = final(self).spec_next() as int;
                let capacity = old(self).spec_capacity() as usize;
                if to < after.len() {
                    &&& from <= to
                    &&& no_space_on(before, except(before, after, to), size, from, to)
                    &&& after[to].requests() == before[to].requests().push(
                        Request { size, refusal: refusal_of(r) },
                    )
                    &&& match r {
                        Ok(partition) => {
                            &&& partition.spec_id() == old(self).spec_partitions().len()
                                as PartitionId
                            &&& after[to].spec_partitions() == before[to].spec_partitions().push(
                                partition.spec_inner(),
                            )
                            &&& partition.spec_statistics() == old(self).spec_statistics()
                        },
                        Err(e) => e.spec_kind() != ErrorKind::NoSpace,
                    }
                } else {
                    &&& no_space_on(before, after, size, from, after.len() as int)
                    &&& r == Err::<Arc<CombinedPartition<D::Part, S>>, Error>(
                        Error::NoSpace { capacity, allocated: capacity, required: size },
                    )
                }
            }),
    {
        let ghost n = self.devices@.len();
        let ghost before = self.devices@;
        let ghost from = self.next as int;
        loop
            invariant
                in_order(self.devices@),
                all_reliable(before) ==> all_reliable(self.devices@),
                numbered(self.partitions@, self.statistics),
                n == self.devices@.len(),
                before == old(self).devices@,
                from == old(self).next,
                from <= self.next,
                from < n ==> self.next <= n,
                from >= n ==> self.next == from,
                self.partitions@ == old(self).partitions@,
                self.statistics == old(self).statistics,
                self.requests@ == old(self).requests@,
                capacity_of(self.devices@) == capacity_of(before),
                allocated_of(self.devices@) == allocated_of(before),
                room_of(self.devices@, self.next as int, size) == room_of(before, from, size),
                no_space_on(before, self.devices@, size, from, if self.next <= n {
                    self.next as int
                } else {
                    n as int
                }),
            decreases n - self.next,
        {
            if self.next >= self.devices.len() {
                let capacity: usize = self.capacity();
                let e = Error::NoSpace { capacity, allocated: capacity, required: size };
                proof {
                    self.requests@ = self.requests@.push(Request { size, refusal: Some(e) });
                }
                return Err(e);
            }
            let k: usize = self.next;
            let ghost asked = self.devices@;
            let r = self.devices[k].create_partition(size);
            proof {
                assert(self.devices@ =~= asked.update(k as int, self.devices@[k as int]));
                sums_update(asked, k as int, self.devices@[k as int]);
                room_update(asked, k as int, size, k as int, self.devices@[k as int]);
                room_step(self.devices@, k as int, size);
                assert forall|i: int| 0 <= i < self.devices@.len() implies (
                #[trigger] self.devices@[i]).wf() by {
                    if i != k {
                        assert(asked[i].wf());
                    }
                }
                assert(except(before, self.devices@, k as int) =~= asked);
                if all_reliable(asked) {
                    assert(asked[k as int].reliable());
                    assert forall|i: int| 0 <= i < self.devices@.len() implies (
                    #[trigger] self.devices@[i]).reliable() by {
                        if i != k {
                            assert(asked[i].reliable());
                        }
                    }
                }
            }
            match r {
                Ok(p) => {
                    let partition = Arc::new(
                        CombinedPartition {
                            inner: p,
                            id: self.partitions.len() as PartitionId,
                            statistics: self.statistics.clone(),
                        },
                    );
                    self.partitions.push(partition.clone());
                    proof {
                        self.requests@ = self.requests@.push(Request { size, refusal: None });
                    }
                    return Ok(partition);
                },
                Err(e) => {
                    if e.kind() == ErrorKind::NoSpace {
                        self.next = self.next + 1;
                    } else {
                        proof {
                            self.requests@ = self.requests@.push(
                                Request { size, refusal: Some(e) },
                            );
                        }
                        return Err(e);
                    }
                },
            }
        }
    }

    /// What is behind several devices cannot be resized.
    fn set_physical_len(&mut self, len: u64) -> (r: Result<(), Error>)
        ensures
            r == Err::<(), Error>(Error::Unsupported),
            *final(self) == *old(self),
    {
        Err(Error::Unsupported)
    }

    fn partitions(&self) -> (partitions: usize) {
        self.partitions.len()
    }

    fn partition(&self, id: PartitionId) -> (partition: Arc<CombinedPartition<D::Part, S>>) {
        self.partitions[id as usize].clone()
    }

    fn statistics(&self) -> (statistics: &Arc<S>) {
        &self.statistics
    }
}

/// A partition of a combined device.
#[derive(Debug)]
pub struct CombinedPartition<P: Partition, S> {
    inner: Arc<P>,
    id: PartitionId,
    statistics: Arc<S>,
}

impl<P: Partition, S> CombinedPartition<P, S> {
    /// The partition of the inner device.
    pub closed spec fn spec_inner(self) -> Arc<P> {
        self.inner
    }
}

impl<P: Partition, S> Partition for CombinedPartition<P, S> {
    type Stats = S;

    closed spec fn spec_id(&self) -> PartitionId {
        self.id
    }

    open spec fn spec_size(&self) -> usize {
        self.spec_inner().spec_size()
    }

    open spec fn spec_translate(&self, address: u64) -> (RawFile, u64) {
        self.spec_inner().spec_translate(address)
    }

    closed spec fn spec_statistics(&self) -> Arc<S> {
        self.statistics
    }

    fn id(&self) -> (id: PartitionId) {
        self.id
    }

    fn size(&self) -> (size: usize) {
        self.inner.size()
    }

    fn translate(&self, address: u64) -> (place: (RawFile, u64)) {
        self.inner.translate(address)
    }

    fn statistics(&self) -> (statistics: &Arc<S>) {
        &self.statistics
    }
}

} // verus!
