use foyer_block::combined::CombinedDeviceBuilder;
use foyer_block::device::{Device, NoopDevice, Partition};
use foyer_block::either::{Either, EitherDevice};
use foyer_block::error::ErrorKind;
use foyer_block::statistics::{Statistics, Throttle};
use std::sync::Arc;

fn device_of(capacity: usize) -> NoopDevice<Statistics> {
    NoopDevice::new(capacity, Arc::new(Statistics::new(Throttle::new(), 0)))
}

#[test]
fn test_combined_device_one_leading_small_silent_loss() {
    let block_size: usize = 16 * 1024 * 1024;

    let device_a = device_of(4 * 1024 * 1024); // 4 MiB, 4K-aligned, < block_size
    let device_b = device_of(48 * 1024 * 1024); // 48 MiB = 3 blocks
    let mut device = CombinedDeviceBuilder::new()
        .with_device(device_a)
        .with_device(device_b)
        .build(|throttle| Statistics::new(throttle, 0))
        .unwrap();

    let mut count = 0;
    loop {
        if device.free() < block_size {
            break;
        }
        match device.create_partition(block_size) {
            Ok(_p) => count += 1,
            Err(e) if e.kind() == ErrorKind::NoSpace => break,
            Err(e) => panic!("unexpected error: {e:?}"),
        }
    }
    assert_eq!(count, 3, "should fit 3 blocks, only got {}", count);
}

#[test]
fn test_combined_device_two_leading_allocated_exceeds_capacity() {
    let block_size: usize = 16 * 1024 * 1024;

    let device_a = device_of(4 * 1024 * 1024);
    let device_b = device_of(4 * 1024 * 1024);
    let device_c = device_of(48 * 1024 * 1024);
    let mut device = CombinedDeviceBuilder::new()
        .with_device(device_a)
        .with_device(device_b)
        .with_device(device_c)
        .build(|throttle| Statistics::new(throttle, 0))
        .unwrap();

    for _ in 0..3 {
        device.create_partition(block_size).unwrap();
    }

    assert!(
        device.allocated() <= device.capacity(),
        "allocated ({}) exceeds capacity ({}) — free() would underflow",
        device.allocated(),
        device.capacity()
    );
}

#[test]
fn test_combined_device_multi_partition_under_count() {
    let block_size: usize = 16 * 1024 * 1024;

    let device_a = device_of(3 * block_size); // 3 partitions before NoSpace
    let device_b = device_of(block_size); // 1 partition
    let mut device = CombinedDeviceBuilder::new()
        .with_device(device_a)
        .with_device(device_b)
        .build(|throttle| Statistics::new(throttle, 0))
        .unwrap();

    for _ in 0..4 {
        device.create_partition(block_size).unwrap();
    }

    assert_eq!(
        device.allocated(),
        4 * block_size,
        "allocated() should be {} but reported {}",
        4 * block_size,
        device.allocated()
    );
}

#[test]
fn combined_device_numbers_its_partitions() {
    let mut device = CombinedDeviceBuilder::default()
        .with_device(device_of(8192))
        .with_device(device_of(4096))
        .with_throttle(Throttle::new().with_read_iops(7))
        .build(|throttle| Statistics::new(throttle, 0))
        .unwrap();
    assert_eq!(device.capacity(), 12288);
    assert_eq!(device.free(), 12288);
    for id in 0..3u32 {
        let partition = device.create_partition(4096).unwrap();
        assert_eq!(partition.id(), id);
        assert_eq!(partition.size(), 4096);
        assert_eq!(partition.statistics().throttle().read_iops, Some(7));
    }
    assert_eq!(device.partitions(), 3);
    assert_eq!(device.partition(2).id(), 2);
    assert_eq!(device.free(), 0);
    assert_eq!(device.statistics().throttle().read_iops, Some(7));
    let e = device.create_partition(1).unwrap_err();
    assert_eq!(e.kind(), ErrorKind::NoSpace);
    assert_eq!(device.partitions(), 3);
}

#[test]
fn noop_device_grants_what_fits() {
    let mut device = device_of(10);
    assert_eq!(device.create_partition(4).unwrap().id(), 0);
    assert_eq!(device.create_partition(7).unwrap_err().kind(), ErrorKind::NoSpace);
    assert_eq!(device.create_partition(6).unwrap().id(), 1);
    assert_eq!(device.free(), 0);
    assert_eq!(device.allocated(), 10);
    assert_eq!(device.partition(0).size(), 4);
}

#[test]
fn combined_device_cannot_be_resized() {
    let mut device = CombinedDeviceBuilder::new()
        .with_device(device_of(8192))
        .build(|throttle| Statistics::new(throttle, 0))
        .unwrap();
    assert_eq!(device.set_physical_len(4096).unwrap_err().kind(), ErrorKind::Unsupported);
    assert_eq!(device_of(1).set_physical_len(1).unwrap_err().kind(), ErrorKind::Unsupported);
    assert_eq!(device.capacity(), 8192);
}

#[test]
fn devices_of_two_kinds_can_be_combined() {
    let inner = CombinedDeviceBuilder::new()
        .with_device(device_of(4096))
        .with_device(device_of(4096))
        .build(|throttle| Statistics::new(throttle, 0))
        .unwrap();
    let mut device = CombinedDeviceBuilder::new()
        .with_device(EitherDevice::new(Either::Left(device_of(4096))))
        .with_device(EitherDevice::new(Either::Right(inner)))
        .build(|throttle| Statistics::new(throttle, 0))
        .unwrap();
    assert_eq!(device.capacity(), 12288);
    for id in 0..3u32 {
        let partition = device.create_partition(4096).unwrap();
        assert_eq!((partition.id(), partition.size()), (id, 4096));
    }
    assert_eq!(device.free(), 0);
    match device.create_partition(1) {
        Ok(_) => panic!("there is no space"),
        Err(e) => assert_eq!(e.kind(), ErrorKind::NoSpace),
    }
}
