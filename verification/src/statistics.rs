//! What was read from and written to a device, and how much of it is allowed.

use vstd::prelude::*;

verus! {

/// How an I/O is counted.
#[derive(Debug, Clone, Copy, PartialEq, Eq, Structural)]
pub enum IopsCounter {
    /// Every I/O counts once.
    PerIo,
    /// Every started piece of the given size counts once.
    PerIoSize(usize),
}

impl IopsCounter {
    /// The pieces, if any, have a size.
    pub open spec fn wf(self) -> bool {
        self matches IopsCounter::PerIoSize(size) ==> size > 0
    }

    /// How often an I/O of `bytes` bytes counts.
    pub open spec fn spec_count(self, bytes: usize) -> int {
        match self {
            IopsCounter::PerIo => 1,
            IopsCounter::PerIoSize(size) => (bytes + size - 1) / size as int,
        }
    }

    /// Count an I/O of `bytes` bytes.
    pub fn count(&self, bytes: usize) -> (ios: usize)
        requires
            self.wf(),
        ensures
            ios == self.spec_count(bytes),
    {
        match self {
            IopsCounter::PerIo => 1,
            IopsCounter::PerIoSize(size) => {
                let size: usize = *size;
                let whole: usize = bytes / size;
                let rest: usize = bytes % size;
                proof {
                    let (b, s) = (bytes as int, size as int);
                    vstd::arithmetic::div_mod::lemma_fundamental_div_mod(b, s);
                    assert(whole * s == s * whole) by (nonlinear_arith);
                    if rest == 0 {
                        assert((b + s - 1) / s == whole) by {
                            vstd::arithmetic::div_mod::lemma_fundamental_div_mod_converse(
                                b + s - 1,
                                s,
                                whole as int,
                                s - 1,
                            );
                        }
                    } else {
                        assert(whole + 1 <= b) by (nonlinear_arith)
                            requires
                                b == s * whole + rest,
                                s > 0,
                                rest > 0,
                                whole >= 0,
                        ;
                        assert((whole + 1) * s == whole * s + s) by (nonlinear_arith);
                        assert((b + s - 1) / s == whole + 1) by {
                            vstd::arithmetic::div_mod::lemma_fundamental_div_mod_converse(
                                b + s - 1,
                                s,
                                whole + 1,
                                rest - 1,
                            );
                        }
                    }
                }
                if rest > 0 {
                    whole + 1
                } else {
                    whole
                }
            },
        }
    }
}

/// The limits of a device per second, `None` for no limit.
#[derive(Debug, Clone, Copy, PartialEq, Eq)]
pub struct Throttle {
    pub write_throughput: Option<usize>,
    pub read_throughput: Option<usize>,
    pub write_iops: Option<usize>,
    pub read_iops: Option<usize>,
    pub iops_counter: IopsCounter,
}

impl Throttle {
    /// No limit at all.
    pub open spec fn unlimited() -> Throttle {
        Throttle {
            write_throughput: None,
            read_throughput: None,
            write_iops: None,
            read_iops: None,
            iops_counter: IopsCounter::PerIo,
        }
    }

    /// Create a throttle without limits.
    pub fn new() -> (throttle: Throttle)
        ensures
            throttle == Throttle::unlimited(),
            throttle.write_throughput is None,
            throttle.read_throughput is None,
            throttle.write_iops is None,
            throttle.read_iops is None,
            throttle.iops_counter == IopsCounter::PerIo,
    {
        Throttle {
            write_throughput: None,
            read_throughput: None,
            write_iops: None,
            read_iops: None,
            iops_counter: IopsCounter::PerIo,
        }
    }

    /// Set the limit of read I/Os.
    pub fn with_read_iops(self, iops: usize) -> (throttle: Throttle)
        ensures
            throttle == (Throttle { read_iops: Some(iops), ..self }),
    {
        Throttle { read_iops: Some(iops), ..self }
    }
}

impl Default for Throttle {
    fn default() -> (throttle: Throttle)
        ensures
            throttle == Throttle::unlimited(),
    {
        Throttle::new()
    }
}

/// The number of nanoseconds in a second, and the number of parts in which a quota is counted.
pub const NANOS: u64 = 1_000_000_000;

/// What is left of a quota of `limit` per second, after some nanoseconds. There is never more left
/// than the quota of one second. Quotas are counted in parts, of which `NANOS` make up one.
pub open spec fn refilled(quota: int, limit: nat, elapsed: nat) -> int {
    let full = limit * NANOS;
    if quota + elapsed * limit < full {
        quota + elapsed * limit
    } else {
        full
    }
}

/// What is left of a quota after `value` was taken. Debts have a floor that is out of reach.
pub open spec fn taken(quota: int, value: nat) -> int {
    if quota - value * NANOS > -i128::MAX {
        quota - value * NANOS
    } else {
        -i128::MAX
    }
}

/// How many nanoseconds it takes to refill a quota that is overdrawn, to the nearest one.
pub open spec fn refill_time(quota: int, limit: nat) -> int {
    if limit == 0 || quota >= 0 {
        0
    } else {
        (-quota + limit / 2) / limit as int
    }
}

/// How many nanoseconds went by between two points in time, none if the second one is earlier.
pub open spec fn elapsed(from: u64, to: u64) -> nat {
    if to >= from {
        (to - from) as nat
    } else {
        0
    }
}

/// A quantity that is added up, and may be limited.
///
/// A limit is kept by a quota: what is recorded is taken from it, even if that overdraws it, and it
/// is refilled as time goes by. Points in time are nanoseconds since any fixed one.
#[derive(Debug, Clone, Copy)]
pub struct Metric {
    value: usize,
    throttle: usize,
    quota: i128,
    update: u64,
}

impl Metric {
    /// What was recorded so far, modulo the size of a `usize`.
    pub closed spec fn total(self) -> usize {
        self.value
    }

    /// How much is allowed per second, zero for any amount.
    pub closed spec fn limit(self) -> usize {
        self.throttle
    }

    /// What is left of the quota, in parts. It is negative if the quota is overdrawn.
    pub closed spec fn spec_quota(self) -> int {
        self.quota as int
    }

    /// When the quota was last refilled.
    pub closed spec fn updated(self) -> u64 {
        self.update
    }

    /// The quota is not more than that of one second.
    pub open spec fn wf(self) -> bool {
        -i128::MAX <= self.spec_quota() <= self.limit() * NANOS
    }

    /// Create a metric with the given limit.
    pub fn new(throttle: usize, now: u64) -> (metric: Metric)
        ensures
            metric.wf(),
            metric.total() == 0,
            metric.limit() == throttle,
            metric.spec_quota() == 0,
            metric.updated() == now,
    {
        Metric { value: 0, throttle, quota: 0, update: now }
    }

    /// Get what was recorded so far.
    pub fn load(&self) -> (value: usize)
        ensures
            value == self.total(),
    {
        self.value
    }

    /// Get what is left of the quota, in parts.
    pub fn quota(&self) -> (quota: i128)
        ensures
            quota == self.spec_quota(),
    {
        self.quota
    }

    /// Record `value`, and take it from the quota if there is a limit.
    pub fn record(&mut self, value: usize)
        requires
            old(self).wf(),
        ensures
            final(self).wf(),
            final(self).total() == (old(self).total() + value) % (usize::MAX + 1),
            final(self).limit() == old(self).limit(),
            final(self).updated() == old(self).updated(),
            final(self).spec_quota() == if old(self).limit() == 0 {
                old(self).spec_quota()
            } else {
                taken(old(self).spec_quota(), value as nat)
            },
    {
        proof {
            let (sum, all) = (self.value + value, usize::MAX + 1);
            if sum < all {
                vstd::arithmetic::div_mod::lemma_small_mod(sum as nat, all as nat);
            } else {
                vstd::arithmetic::div_mod::lemma_mod_sub_multiples_vanish(sum, all);
                vstd::arithmetic::div_mod::lemma_small_mod((sum - all) as nat, all as nat);
            }
        }
        self.value = self.value.wrapping_add(value);
        // If throttle is set, update the quota.
        if self.throttle != 0 {
            assert(value * NANOS <= u64::MAX * NANOS) by (nonlinear_arith)
                requires
                    value <= u64::MAX,
            ;
            let dec: i128 = value as i128 * NANOS as i128;
            if self.quota > dec - i128::MAX {
                self.quota = self.quota - dec;
            } else {
                self.quota = -i128::MAX;
            }
        }
    }

    /// Refill the quota. Returns how many nanoseconds to wait until it is not overdrawn.
    ///
    /// Returns zero if there is no need to wait.
    pub fn throttle(&mut self, now: u64) -> (wait: u128)
        requires
            old(self).wf(),
        ensures
            final(self).wf(),
            final(self).total() == old(self).total(),
            final(self).limit() == old(self).limit(),
            old(self).limit() == 0 ==> wait == 0 && *final(self) == *old(self),
            old(self).limit() != 0 ==> {
                &&& final(self).spec_quota() == refilled(
                    old(self).spec_quota(),
                    old(self).limit() as nat,
                    elapsed(old(self).updated(), now),
                )
                &&& final(self).updated() == if now >= old(self).updated() {
                    now
                } else {
                    old(self).updated()
                }
                &&& wait == refill_time(final(self).spec_quota(), old(self).limit() as nat)
            },
            old(self).limit() != 0 && now >= old(self).updated() ==> {
                let full = old(self).limit() * NANOS;
                let grown = old(self).spec_quota() + (now - old(self).updated()) * old(
                    self,
                ).limit();
                &&& grown <= full ==> final(self).spec_quota() == grown
                &&& grown >= full ==> final(self).spec_quota() == full
                &&& final(self).spec_quota() >= 0 ==> wait == 0
            },
    {
        // If throttle is not set, no need to wait.
        if self.throttle == 0 {
            return 0;
        }
        let limit: u128 = self.throttle as u128;
        let dur: u64 = if now >= self.update {
            now - self.update
        } else {
            0
        };
        assert(dur * limit <= u64::MAX * u64::MAX) by (nonlinear_arith)
            requires
                dur <= u64::MAX,
                0 <= limit <= u64::MAX,
        ;
        let fill: u128 = dur as u128 * limit;
        let full: u128 = limit * NANOS as u128;
        let quota: i128 = if self.quota < 0 {
            let debt: u128 = (-self.quota) as u128;
            if fill < debt {
                -((debt - fill) as i128)
            } else if fill - debt < full {
                (fill - debt) as i128
            } else {
                full as i128
            }
        } else {
            let left: u128 = self.quota as u128;
            if fill < full - left {
                (left + fill) as i128
            } else {
                full as i128
            }
        };
        self.quota = quota;
        if now > self.update {
            self.update = now;
        }
        if quota >= 0 {
            0
        } else {
            ((-quota) as u128 + limit / 2) / limit
        }
    }
}

/// The statistics of the device.
#[derive(Debug, Clone, Copy)]
pub struct Statistics {
    throttle: Throttle,
    disk_write_bytes: Metric,
    disk_read_bytes: Metric,
    disk_write_ios: Metric,
    disk_read_ios: Metric,
}

impl Statistics {
    pub closed spec fn spec_throttle(self) -> Throttle {
        self.throttle
    }

    pub closed spec fn write_bytes(self) -> Metric {
        self.disk_write_bytes
    }

    pub closed spec fn read_bytes(self) -> Metric {
        self.disk_read_bytes
    }

    pub closed spec fn write_ios(self) -> Metric {
        self.disk_write_ios
    }

    pub closed spec fn read_ios(self) -> Metric {
        self.disk_read_ios
    }

    /// Every metric has the limit that the throttle gives.
    pub open spec fn wf(self) -> bool {
        &&& self.spec_throttle().iops_counter.wf()
        &&& self.write_bytes().wf()
        &&& self.read_bytes().wf()
        &&& self.write_ios().wf()
        &&& self.read_ios().wf()
        &&& self.write_bytes().limit() == limit_of(self.spec_throttle().write_throughput)
        &&& self.read_bytes().limit() == limit_of(self.spec_throttle().read_throughput)
        &&& self.write_ios().limit() == limit_of(self.spec_throttle().write_iops)
        &&& self.read_ios().limit() == limit_of(self.spec_throttle().read_iops)
    }

    /// Create a new statistics.
    pub fn new(throttle: Throttle, now: u64) -> (statistics: Statistics)
        requires
            throttle.iops_counter.wf(),
        ensures
            statistics.wf(),
            statistics.spec_throttle() == throttle,
            statistics.write_bytes().limit() == throttle.write_throughput.unwrap_or(0),
            statistics.read_bytes().limit() == throttle.read_throughput.unwrap_or(0),
            statistics.write_ios().limit() == throttle.write_iops.unwrap_or(0),
            statistics.read_ios().limit() == throttle.read_iops.unwrap_or(0),
            fresh(statistics.write_bytes(), now),
            fresh(statistics.read_bytes(), now),
            fresh(statistics.write_ios(), now),
            fresh(statistics.read_ios(), now),
    {
        Statistics {
            throttle,
            disk_write_bytes: Metric::new(throttle.write_throughput.unwrap_or(0), now),
            disk_read_bytes: Metric::new(throttle.read_throughput.unwrap_or(0), now),
            disk_write_ios: Metric::new(throttle.write_iops.unwrap_or(0), now),
            disk_read_ios: Metric::new(throttle.read_iops.unwrap_or(0), now),
        }
    }

    /// Get the disk cache written bytes.
    pub fn disk_write_bytes(&self) -> (bytes: usize)
        ensures
            bytes == self.write_bytes().total(),
    {
        self.disk_write_bytes.load()
    }

    /// Get the disk cache read bytes.
    pub fn disk_read_bytes(&self) -> (bytes: usize)
        ensures
            bytes == self.read_bytes().total(),
    {
        self.disk_read_bytes.load()
    }

    /// Get the disk cache written ios.
    pub fn disk_write_ios(&self) -> (ios: usize)
        ensures
            ios == self.write_ios().total(),
    {
        self.disk_write_ios.load()
    }

    /// Get the disk cache read ios.
    pub fn disk_read_ios(&self) -> (ios: usize)
        ensures
            ios == self.read_ios().total(),
    {
        self.disk_read_ios.load()
    }

    /// Record the write IO and update the statistics.
    pub fn record_disk_write(&mut self, bytes: usize)
        requires
            old(self).wf(),
        ensures
            final(self).wf(),
            final(self).spec_throttle() == old(self).spec_throttle(),
            final(self).read_bytes() == old(self).read_bytes(),
            final(self).read_ios() == old(self).read_ios(),
            recorded(old(self).write_bytes(), final(self).write_bytes(), bytes as int),
            recorded(
                old(self).write_ios(),
                final(self).write_ios(),
                old(self).spec_throttle().iops_counter.spec_count(bytes),
            ),
    {
        self.disk_write_bytes.record(bytes);
        let ios: usize = self.throttle.iops_counter.count(bytes);
        self.disk_write_ios.record(ios);
    }

    /// Record the read IO and update the statistics.
    pub fn record_disk_read(&mut self, bytes: usize)
        requires
            old(self).wf(),
        ensures
            final(self).wf(),
            final(self).spec_throttle() == old(self).spec_throttle(),
            final(self).write_bytes() == old(self).write_bytes(),
            final(self).write_ios() == old(self).write_ios(),
            recorded(old(self).read_bytes(), final(self).read_bytes(), bytes as int),
            recorded(
                old(self).read_ios(),
                final(self).read_ios(),
                old(self).spec_throttle().iops_counter.spec_count(bytes),
            ),
    {
        self.disk_read_bytes.record(bytes);
        let ios: usize = self.throttle.iops_counter.count(bytes);
        self.disk_read_ios.record(ios);
    }

    /// Get how many nanoseconds to wait until there is quota for read ops.
    ///
    /// Returns zero if there is no need to wait.
    pub fn read_throttle(&mut self, now: u64) -> (wait: u128)
        requires
            old(self).wf(),
        ensures
            final(self).wf(),
            final(self).spec_throttle() == old(self).spec_throttle(),
            final(self).write_bytes() == old(self).write_bytes(),
            final(self).write_ios() == old(self).write_ios(),
            probed(old(self).read_bytes(), final(self).read_bytes(), now),
            probed(old(self).read_ios(), final(self).read_ios(), now),
            wait == longer(waiting(final(self).read_bytes()), waiting(final(self).read_ios())),
    {
        let bytes: u128 = self.disk_read_bytes.throttle(now);
        let ios: u128 = self.disk_read_ios.throttle(now);
        if bytes >= ios {
            bytes
        } else {
            ios
        }
    }

    /// Get how many nanoseconds to wait until there is quota for write ops.
    ///
    /// Returns zero if there is no need to wait.
    pub fn write_throttle(&mut self, now: u64) -> (wait: u128)
        requires
            old(self).wf(),
        ensures
            final(self).wf(),
            final(self).spec_throttle() == old(self).spec_throttle(),
            final(self).read_bytes() == old(self).read_bytes(),
            final(self).read_ios() == old(self).read_ios(),
            probed(old(self).write_bytes(), final(self).write_bytes(), now),
            probed(old(self).write_ios(), final(self).write_ios(), now),
            wait == longer(waiting(final(self).write_bytes()), waiting(final(self).write_ios())),
    {
        let bytes: u128 = self.disk_write_bytes.throttle(now);
        let ios: u128 = self.disk_write_ios.throttle(now);
        if bytes >= ios {
            bytes
        } else {
            ios
        }
    }

    /// Check if the read ops are throttled.
    pub fn is_read_throttled(&mut self, now: u64) -> (throttled: bool)
        requires
            old(self).wf(),
        ensures
            final(self).wf(),
            final(self).spec_throttle() == old(self).spec_throttle(),
            final(self).write_bytes() == old(self).write_bytes(),
            final(self).write_ios() == old(self).write_ios(),
            probed(old(self).read_bytes(), final(self).read_bytes(), now),
            probed(old(self).read_ios(), final(self).read_ios(), now),
            throttled == (waiting(final(self).read_bytes()) > 0 || waiting(final(self).read_ios())
                > 0),
    {
        self.read_throttle(now) > 0
    }

    /// Check if the write ops are throttled.
    pub fn is_write_throttled(&mut self, now: u64) -> (throttled: bool)
        requires
            old(self).wf(),
        ensures
            final(self).wf(),
            final(self).spec_throttle() == old(self).spec_throttle(),
            final(self).read_bytes() == old(self).read_bytes(),
            final(self).read_ios() == old(self).read_ios(),
            probed(old(self).write_bytes(), final(self).write_bytes(), now),
            probed(old(self).write_ios(), final(self).write_ios(), now),
            throttled == (waiting(final(self).write_bytes()) > 0 || waiting(final(self).write_ios())
                > 0),
    {
        self.write_throttle(now) > 0
    }

    /// Get the throttle configuration.
    pub fn throttle(&self) -> (throttle: &Throttle)
        ensures
            *throttle == self.spec_throttle(),
    {
        &self.throttle
    }
}

/// The limit as a number, zero for no limit.
pub open spec fn limit_of(limit: Option<usize>) -> usize {
    limit.unwrap_or(0)
}

/// Nothing was recorded yet, and nothing is left of the quota.
pub open spec fn fresh(metric: Metric, now: u64) -> bool {
    metric.total() == 0 && metric.spec_quota() == 0 && metric.updated() == now
}

/// `after` is `before` once `n` was recorded.
pub open spec fn recorded(before: Metric, after: Metric, n: int) -> bool {
    &&& after.total() == (before.total() + n) % (usize::MAX + 1)
    &&& after.limit() == before.limit()
    &&& after.updated() == before.updated()
    &&& after.spec_quota() == if before.limit() == 0 {
        before.spec_quota()
    } else {
        taken(before.spec_quota(), n as nat)
    }
}

/// `after` is `before` once its quota was refilled.
pub open spec fn probed(before: Metric, after: Metric, now: u64) -> bool {
    if before.limit() == 0 {
        after == before
    } else {
        &&& after.total() == before.total()
        &&& after.limit() == before.limit()
        &&& after.updated() == if now >= before.updated() {
            now
        } else {
            before.updated()
        }
        &&& after.spec_quota() == refilled(
            before.spec_quota(),
            before.limit() as nat,
            elapsed(before.updated(), now),
        )
    }
}

/// How long to wait for the quota of a metric. Without a limit there is no need to wait.
pub open spec fn waiting(metric: Metric) -> int {
    refill_time(metric.spec_quota(), metric.limit() as nat)
}

/// The longer one of two times.
pub open spec fn longer(a: int, b: int) -> int {
    if a >= b {
        a
    } else {
        b
    }
}

/// An I/O counts as often as pieces are needed to cover it, and not more often: with one piece less
/// some of its bytes would be left over. Without a piece size it counts once.
pub proof fn pieces_cover_the_bytes(counter: IopsCounter, bytes: usize)
    requires
        counter.wf(),
    ensures
        counter is PerIo ==> counter.spec_count(bytes) == 1,
        counter matches IopsCounter::PerIoSize(size) ==> {
            &&& counter.spec_count(bytes) >= 0
            &&& counter.spec_count(bytes) * size >= bytes
            &&& forall|n: int| 0 <= n < counter.spec_count(bytes) ==> #[trigger] (n * size) < bytes
        },
{
    if let IopsCounter::PerIoSize(size) = counter {
        let (b, s) = (bytes as int, size as int);
        let x = b + s - 1;
        let c = x / s;
        vstd::arithmetic::div_mod::lemma_fundamental_div_mod(x, s);
        vstd::arithmetic::div_mod::lemma_mod_bound(x, s);
        vstd::arithmetic::div_mod::lemma_div_pos_is_pos(x, s);
        assert(c * s == s * c) by (nonlinear_arith);
        assert forall|n: int| 0 <= n < c implies #[trigger] (n * size) < bytes by {
            assert(n * s <= c * s - s) by (nonlinear_arith)
                requires
                    n <= c - 1,
                    s > 0,
            ;
        }
    }
}

/// The limit is not undercut: a quota grows by what the limit allows for the time that went by, up
/// to the whole limit of one second, and by nothing else.
pub proof fn quota_grows_with_time(quota: int, limit: nat, time: nat)
    requires
        quota <= limit * NANOS,
    ensures
        quota + time * limit <= limit * NANOS ==> refilled(quota, limit, time) == quota + time
            * limit,
        quota + time * limit >= limit * NANOS ==> refilled(quota, limit, time) == limit * NANOS,
        quota <= refilled(quota, limit, time) <= limit * NANOS,
{
    assert(time * limit >= 0) by (nonlinear_arith);
}

/// After one second without a debt the whole limit is available, whatever it is.
pub proof fn second_fills_the_quota(quota: int, limit: nat, time: nat)
    requires
        0 <= quota <= limit * NANOS,
        time >= NANOS,
    ensures
        refilled(quota, limit, time) == limit * NANOS,
{
    assert(time * limit >= limit * NANOS) by (nonlinear_arith)
        requires
            time >= NANOS,
    ;
}

/// What is recorded comes off the quota, in whole units, unless that takes it below its floor.
pub proof fn records_come_off_the_quota(quota: int, a: nat, b: nat)
    requires
        quota - (a + b) * NANOS > -i128::MAX,
    ensures
        quota - taken(quota, a) == a * NANOS,
        taken(taken(quota, a), b) == quota - (a + b) * NANOS,
{
    assert((a + b) * NANOS == a * NANOS + b * NANOS) by (nonlinear_arith);
    assert(a * NANOS >= 0 && b * NANOS >= 0) by (nonlinear_arith);
}

/// A quota that is overdrawn beyond all measure stays at its floor.
pub proof fn debt_has_a_floor(quota: int, value: nat)
    requires
        quota - value * NANOS <= -i128::MAX,
    ensures
        taken(quota, value) == -i128::MAX,
{
}

/// The time to wait is the nearest number of nanoseconds in which the limit makes up for the debt.
pub proof fn waiting_time_is_nearest(quota: int, limit: nat, time: nat)
    requires
        quota < 0,
        limit > 0,
    ensures
        refill_time(quota, limit) >= 0,
        -(limit as int) < 2 * (refill_time(quota, limit) * limit + quota) <= limit,
        (time * limit == -quota) ==> refill_time(quota, limit) == time,
{
    let l = limit as int;
    let x = -quota + l / 2;
    let t = refill_time(quota, limit);
    vstd::arithmetic::div_mod::lemma_fundamental_div_mod(x, l);
    vstd::arithmetic::div_mod::lemma_mod_bound(x, l);
    vstd::arithmetic::div_mod::lemma_div_pos_is_pos(x, l);
    assert(t * l == l * t) by (nonlinear_arith);
    if time * limit == -quota {
        assert(t == time) by (nonlinear_arith)
            requires
                time * l == -quota,
                l > 0,
                -l < 2 * (t * l + quota) <= l,
        ;
    }
}

/// Only who has overdrawn a limited quota has to wait. A debt that is made up for in less than half
/// a nanosecond counts for nothing.
pub proof fn debtors_wait(metric: Metric)
    ensures
        waiting(metric) >= 0,
        waiting(metric) > 0 <==> metric.limit() > 0 && -2 * metric.spec_quota()
            >= metric.limit() as int,
{
    let q = metric.spec_quota();
    let l = metric.limit() as int;
    if l > 0 && q < 0 {
        let t = refill_time(q, l as nat);
        waiting_time_is_nearest(q, l as nat, 0);
        if t == 0 {
            assert(t * l == 0) by (nonlinear_arith)
                requires
                    t == 0,
            ;
        } else {
            assert(t * l >= l) by (nonlinear_arith)
                requires
                    t >= 1,
                    l > 0,
            ;
        }
    }
}

/// The time between two points in time is what leads from the one to the other.
pub proof fn time_goes_by(from: u64, to: u64)
    ensures
        from <= to ==> from + elapsed(from, to) == to,
        to <= from ==> elapsed(from, to) == 0,
{
}

/// The limit can be used up: after one second without a debt, as much as the limit can be recorded
/// without a wait, at whatever time that is asked for.
pub proof fn limit_can_be_used_up(
    idle: Metric,
    full: Metric,
    used: Metric,
    last: Metric,
    now: u64,
    later: u64,
    value: int,
)
    requires
        idle.wf(),
        idle.limit() > 0,
        idle.spec_quota() >= 0,
        idle.updated() + NANOS <= now,
        probed(idle, full, now),
        0 <= value <= idle.limit(),
        recorded(full, used, value),
        probed(used, last, later),
    ensures
        full.spec_quota() == idle.limit() * NANOS,
        used.spec_quota() == (idle.limit() - value) * NANOS,
        last.spec_quota() >= 0,
        waiting(full) == 0,
        waiting(used) == 0,
        waiting(last) == 0,
{
    let limit = idle.limit() as nat;
    second_fills_the_quota(idle.spec_quota(), limit, elapsed(idle.updated(), now));
    assert((limit - value) * NANOS == limit * NANOS - value * NANOS) by (nonlinear_arith);
    assert(limit * NANOS >= value * NANOS) by (nonlinear_arith)
        requires
            limit >= value,
    ;
    quota_grows_with_time(used.spec_quota(), limit, elapsed(used.updated(), later));
}

/// What was recorded is added up, and a look at the quota changes none of it.
pub proof fn records_add_up(a: Metric, b: Metric, c: Metric, d: Metric, m: int, n: int, now: u64)
    requires
        0 <= m,
        0 <= n,
        recorded(a, b, m),
        probed(b, c, now),
        recorded(c, d, n),
    ensures
        d.total() == (a.total() + m + n) % (usize::MAX + 1),
        d.limit() == a.limit(),
        a.total() + m + n <= usize::MAX ==> d.total() == a.total() + m + n,
{
    let k = usize::MAX + 1;
    vstd::arithmetic::div_mod::lemma_add_mod_noop_right(n, a.total() + m, k);
    if a.total() + m + n <= usize::MAX {
        vstd::arithmetic::div_mod::lemma_small_mod((a.total() + m + n) as nat, k as nat);
    }
}

/// At first nothing was recorded, and nothing of the limit is available: it comes with time.
pub proof fn metrics_start_at_nothing(metric: Metric, now: u64)
    requires
        fresh(metric, now),
    ensures
        metric.total() == 0,
        metric.spec_quota() == 0,
        metric.updated() == now,
        waiting(metric) == 0,
{
}

/// Time goes forward: a look at the quota takes note of the time, unless it is earlier than that of
/// the look before.
pub proof fn looks_go_forward(before: Metric, after: Metric, now: u64)
    requires
        probed(before, after, now),
        before.limit() > 0,
    ensures
        after.updated() >= before.updated(),
        after.updated() >= now,
        after.updated() == before.updated() || after.updated() == now,
{
}

/// Who waits for two quotas waits for both of them, and not longer.
pub proof fn longer_is_longest(a: int, b: int)
    ensures
        longer(a, b) >= a,
        longer(a, b) >= b,
        longer(a, b) == a || longer(a, b) == b,
{
}

/// Without a limit there is never a need to wait.
pub proof fn unlimited_never_waits(metric: Metric)
    requires
        metric.limit() == 0,
    ensures
        waiting(metric) == 0,
{
}

/// Looking does not change a debt: to look twice refills the quota as much as to look once, however
/// short the time in between.
pub proof fn probing_keeps_debt(quota: int, limit: nat, a: nat, b: nat)
    ensures
        refilled(refilled(quota, limit, a), limit, b) == refilled(quota, limit, a + b),
{
    assert((a + b) * limit == a * limit + b * limit) by (nonlinear_arith);
    assert(b * limit >= 0) by (nonlinear_arith);
}

/// A debt is kept until enough time went by, and is gone then.
pub proof fn debt_is_gone_in_time(quota: int, limit: nat, elapsed: nat)
    requires
        quota < 0,
    ensures
        refilled(quota, limit, elapsed) < 0 <==> elapsed * limit < -quota,
        refilled(quota, limit, elapsed) < 0 ==> refilled(quota, limit, elapsed) == quota + elapsed
            * limit,
{
    assert(limit * NANOS >= 0) by (nonlinear_arith);
}

/// Who waits as long as told waits long enough, but for less than a nanosecond, and not longer than
/// that.
pub proof fn waiting_clears_debt(quota: int, limit: nat)
    requires
        quota < 0,
        limit > 0,
    ensures
        refilled(quota, limit, (refill_time(quota, limit) + 1) as nat) >= 0,
        refill_time(quota, limit) > 0 ==> refilled(
            quota,
            limit,
            (refill_time(quota, limit) - 1) as nat,
        ) < 0,
{
    let l = limit as int;
    let t = refill_time(quota, limit);
    let x = -quota + l / 2;
    vstd::arithmetic::div_mod::lemma_fundamental_div_mod(x, l);
    vstd::arithmetic::div_mod::lemma_mod_bound(x, l);
    vstd::arithmetic::div_mod::lemma_div_pos_is_pos(x, l);
    assert((t + 1) * l == l * t + l) by (nonlinear_arith);
    assert((t - 1) * l == l * t - l) by (nonlinear_arith);
    assert(limit * NANOS >= 0) by (nonlinear_arith);
}

/// The time that went by over a number of steps, each of them a time and what was recorded then.
pub open spec fn total_time(steps: Seq<(nat, nat)>) -> nat
    decreases steps.len(),
{
    if steps.len() == 0 {
        0
    } else {
        total_time(steps.drop_last()) + steps.last().0
    }
}

/// What was recorded over a number of steps.
pub open spec fn total_recorded(steps: Seq<(nat, nat)>) -> nat
    decreases steps.len(),
{
    if steps.len() == 0 {
        0
    } else {
        total_recorded(steps.drop_last()) + steps.last().1
    }
}

/// The quota after a number of steps. In each of them it is refilled first.
pub open spec fn quota_after(quota: int, limit: nat, steps: Seq<(nat, nat)>) -> int
    decreases steps.len(),
{
    if steps.len() == 0 {
        quota
    } else {
        taken(
            refilled(quota_after(quota, limit, steps.drop_last()), limit, steps.last().0),
            steps.last().1,
        )
    }
}

/// The limit is kept: as long as the quota is not overdrawn, no more was recorded than what was
/// left of it at first and what the limit allows for the time that went by. This is for debts that
/// stay above their floor.
pub proof fn limit_is_kept(quota: int, limit: nat, steps: Seq<(nat, nat)>)
    requires
        quota <= limit * NANOS,
        quota - total_recorded(steps) * NANOS > -i128::MAX,
        quota_after(quota, limit, steps) >= 0,
    ensures
        total_recorded(steps) * NANOS <= quota + total_time(steps) * limit,
{
    quota_bounded(quota, limit, steps);
}

proof fn quota_bounded(quota: int, limit: nat, steps: Seq<(nat, nat)>)
    requires
        quota <= limit * NANOS,
        quota - total_recorded(steps) * NANOS > -i128::MAX,
    ensures
        quota - total_recorded(steps) * NANOS <= quota_after(quota, limit, steps) <= quota
            + total_time(steps) * limit - total_recorded(steps) * NANOS,
    decreases steps.len(),
{
    if steps.len() > 0 {
        let rest = steps.drop_last();
        let (time, value) = steps.last();
        let (t, r) = (total_time(rest), total_recorded(rest));
        assert((t + time) * limit == t * limit + time * limit) by (nonlinear_arith);
        assert((r + value) * NANOS == r * NANOS + value * NANOS) by (nonlinear_arith);
        assert(time * limit >= 0 && value * NANOS >= 0 && r * NANOS >= 0) by (nonlinear_arith);
        quota_bounded(quota, limit, rest);
    } else {
        assert(0nat * limit == 0) by (nonlinear_arith);
    }
}

} // verus!
