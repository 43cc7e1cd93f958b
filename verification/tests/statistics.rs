use foyer_block::statistics::{IopsCounter, Metric, Statistics, Throttle};

const SECOND: u64 = 1_000_000_000;

#[test]
fn test_iops_single_io_debt_survives_rapid_probes() {
    let mut metric = Metric::new(1, 0); // 1 iops/s
    metric.record(1); // quota -> -1

    // 2000 probes span microseconds to low milliseconds; with a 1-second debt,
    // every single probe must still report throttled.
    for i in 0..2000 {
        assert!(
            metric.throttle(i * 1000) > 0,
            "probe {i} must still be throttled while the 1-second debt persists"
        );
    }
}

#[test]
fn test_iops_debt_releases_after_refill_window() {
    let mut metric = Metric::new(2, 0); // 2 iops/s
    metric.record(1); // quota -> -1 (holds for ~0.5s)
    assert!(metric.throttle(0) > 0);

    // Go past the refill window with a comfortable margin.
    assert_eq!(
        metric.throttle(700 * 1_000_000),
        0,
        "throttle must release once the debt has refilled"
    );
}

#[test]
fn test_fractional_negative_debt_preserved_losslessly() {
    let mut metric = Metric::new(1, 0);
    metric.record(1);
    // After a millisecond a debt of 0.999 is left.
    assert!(metric.throttle(1_000_000) > 0, "fractional debt must remain throttled");
    let stored = metric.quota();
    assert_eq!(stored, -999_000_000);
    assert!(
        stored < -500_000_000,
        "fractional debt must be preserved losslessly (got {stored})"
    );
}

/// The call pattern of the read path: probe, then if admitted read, and record the read.
fn simulate_admission(limit: usize) -> usize {
    let mut stats = Statistics::new(Throttle::new().with_read_iops(limit), 0);
    let mut admitted = 0;
    let mut now: u64 = 0;
    for _ in 0..1000 {
        now += 1_000;
        if !stats.is_read_throttled(now) {
            admitted += 1;
            // The latency of the device.
            now += 50_000;
            stats.record_disk_read(4096);
        }
    }
    assert_eq!(stats.disk_read_ios(), admitted);
    admitted
}

#[test]
fn test_production_pattern_admission_respects_configured_limit() {
    // A 1-iops/s limit admits ~1 (only the initial free credit), while a high limit admits many.
    let low = simulate_admission(1);
    assert!(
        low < 100,
        "1 iops/s must not admit a large fraction of 1000 rapid attempts (got {low})"
    );
    assert_eq!(low, 1);
    assert!(simulate_admission(1_000_000) > 500);
}

#[test]
fn limits_scale_the_admitted_reads() {
    // Half a second of attempts every 10 microseconds.
    let mut admitted: Vec<usize> = Vec::new();
    for limit in [10usize, 100] {
        let mut stats = Statistics::new(Throttle::new().with_read_iops(limit), 0);
        let mut n = 0;
        let mut now: u64 = 0;
        while now < SECOND / 2 {
            if !stats.is_read_throttled(now) {
                stats.record_disk_read(4096);
                n += 1;
            }
            now += 10_000;
        }
        admitted.push(n);
    }
    assert_eq!(admitted, vec![5, 50]);
}

#[test]
fn wait_is_the_time_to_pay_the_debt() {
    let mut metric = Metric::new(4, 0);
    metric.record(3);
    assert_eq!(metric.throttle(0), 750_000_000);
    assert_eq!(metric.throttle(250_000_000), 500_000_000);
    // An earlier point in time refills nothing.
    assert_eq!(metric.throttle(0), 500_000_000);
    assert_eq!(metric.throttle(750_000_000), 0);
    assert_eq!(metric.load(), 3);
    // A third of a nanosecond does not count.
    let mut metric = Metric::new(3, 0);
    metric.record(1);
    assert_eq!(metric.throttle(0), 333_333_333);
}

#[test]
fn quota_is_that_of_one_second_at_most() {
    let mut metric = Metric::new(5, 0);
    assert_eq!(metric.throttle(100 * SECOND), 0);
    assert_eq!(metric.quota(), 5_000_000_000);
    metric.record(6);
    assert_eq!(metric.throttle(100 * SECOND), 200_000_000);
}

#[test]
fn no_limit_never_waits() {
    let mut metric = Metric::new(0, 0);
    metric.record(usize::MAX);
    assert_eq!(metric.throttle(0), 0);
    assert_eq!(metric.quota(), 0);
    metric.record(2);
    assert_eq!(metric.load(), 1);

    let mut stats = Statistics::new(Throttle::default(), 0);
    stats.record_disk_read(1 << 30);
    stats.record_disk_write(1 << 30);
    assert!(!stats.is_read_throttled(1));
    assert!(!stats.is_write_throttled(1));
}

#[test]
fn reads_and_writes_are_counted_apart() {
    let throttle = Throttle {
        write_throughput: Some(100),
        read_throughput: None,
        write_iops: Some(1),
        read_iops: None,
        iops_counter: IopsCounter::PerIoSize(10),
    };
    let mut stats = Statistics::new(throttle, 0);
    stats.record_disk_write(25);
    stats.record_disk_read(7);
    assert_eq!(stats.disk_write_bytes(), 25);
    assert_eq!(stats.disk_write_ios(), 3);
    assert_eq!(stats.disk_read_bytes(), 7);
    assert_eq!(stats.disk_read_ios(), 1);
    // The longer one of a quarter of a second and three seconds.
    assert_eq!(stats.write_throttle(0), 3 * SECOND as u128);
    assert!(stats.is_write_throttled(0));
    assert_eq!(stats.read_throttle(0), 0);
    assert!(!stats.is_read_throttled(0));
    assert_eq!(stats.throttle().write_iops, Some(1));
}

#[test]
fn ios_are_counted_by_pieces() {
    assert_eq!(IopsCounter::PerIo.count(0), 1);
    assert_eq!(IopsCounter::PerIo.count(1 << 20), 1);
    assert_eq!(IopsCounter::PerIoSize(4096).count(0), 0);
    assert_eq!(IopsCounter::PerIoSize(4096).count(1), 1);
    assert_eq!(IopsCounter::PerIoSize(4096).count(4096), 1);
    assert_eq!(IopsCounter::PerIoSize(4096).count(4097), 2);
}
