use foyer_block::range::{RangeBoundsExt, SafeArith, ZeroOne};
use std::ops::Bound;

#[test]
fn test_start_excluded() {
    let r: (Bound<u32>, Bound<u32>) = (Bound::Excluded(3), Bound::Excluded(10));
    assert_eq!(r.start(), Some(4));
}

#[test]
fn test_start_excluded_at_max_returns_none() {
    let r: (Bound<usize>, Bound<usize>) = (Bound::Excluded(usize::MAX), Bound::Unbounded);
    assert_eq!(r.start(), None);
}

#[test]
fn test_end_inclusive_at_max_returns_none() {
    assert_eq!(RangeBoundsExt::end(&(0usize..=usize::MAX)), None);
    assert_eq!((..=usize::MAX).end(), None);
    let r: (Bound<usize>, Bound<usize>) = (Bound::Included(0), Bound::Included(usize::MAX));
    assert_eq!(r.end(), None);
}

#[test]
fn test_size_normal() {
    assert_eq!((0u32..10).size(), Some(10));
    assert_eq!((0u32..=9).size(), Some(10));
    assert_eq!((3u32..7).size(), Some(4));
    assert_eq!((3u32..=7).size(), Some(5));
}

#[test]
fn test_size_empty() {
    assert_eq!((5u32..5).size(), Some(0));
    assert_eq!((5u32..=5).size(), Some(1));
    assert_eq!((5i32..5).size(), Some(0));
}

#[test]
fn test_size_inverted_returns_none() {
    assert_eq!((10u32..5).size(), None);
    assert_eq!((10u32..=5).size(), None);
    assert_eq!((10usize..5).size(), None);
    let r: (Bound<usize>, Bound<usize>) = (Bound::Included(10), Bound::Excluded(5));
    assert_eq!(r.size(), None);
}

#[test]
fn test_size_whole_domain_returns_none() {
    assert_eq!((0usize..=usize::MAX).size(), None);
    assert_eq!((0u64..=u64::MAX).size(), None);
}

#[test]
fn test_size_unbounded_returns_none() {
    assert_eq!((..10u32).size(), None);
    assert_eq!((5u32..).size(), None);
    let full = ..;
    assert_eq!(RangeBoundsExt::<u32>::size(&full), None);
}

#[test]
fn test_size_signed() {
    assert_eq!((-5i32..5).size(), Some(10));
    assert_eq!((i32::MIN..=i32::MAX).size(), None);
}

#[test]
fn test_size_all_int_types() {
    assert_eq!((0u8..=u8::MAX).size(), None);
    assert_eq!((0u16..=u16::MAX).size(), None);
    assert_eq!((0u32..=u32::MAX).size(), None);
    assert_eq!((0u64..=u64::MAX).size(), None);
    assert_eq!((0usize..=usize::MAX).size(), None);
    assert_eq!((i8::MIN..=i8::MAX).size(), None);
    assert_eq!((i16::MIN..=i16::MAX).size(), None);
    assert_eq!((i32::MIN..=i32::MAX).size(), None);
    assert_eq!((i64::MIN..=i64::MAX).size(), None);
    assert_eq!((isize::MIN..=isize::MAX).size(), None);
    assert_eq!((0u8..10).size(), Some(10));
    assert_eq!((-3i8..3).size(), Some(6));
}

#[test]
fn test_is_empty_basic() {
    assert!(RangeBoundsExt::is_empty(&(5u32..5)));
    assert!(!RangeBoundsExt::is_empty(&(5u32..=5)));
    assert!(RangeBoundsExt::is_empty(&(5u32..0)));
    assert!(!RangeBoundsExt::is_empty(&(0u32..10)));
}

#[test]
fn test_is_empty_inverted_is_true() {
    assert!(RangeBoundsExt::is_empty(&(10u32..5)));
    assert!(RangeBoundsExt::is_empty(&(10u32..=5)));
    assert!(RangeBoundsExt::is_empty(&(10usize..5)));
}

#[test]
fn test_is_empty_whole_domain_is_false() {
    assert!(!RangeBoundsExt::is_empty(&(0usize..=usize::MAX)));
    assert!(!RangeBoundsExt::is_empty(&(0u64..=u64::MAX)));
}

#[test]
fn test_is_empty_matches_std_inherent() {
    for (s, e) in [(0u32, 0), (0, 1), (5, 5), (5, 6), (10, 5), (10, 10)] {
        let r = s..e;
        assert_eq!(RangeBoundsExt::is_empty(&r), r.is_empty(), "Range {s}..{e} mismatch");
    }
    for (s, e) in [(0u32, 0), (5, 5), (5, 6), (10, 5), (10, 10)] {
        let r = s..=e;
        assert_eq!(RangeBoundsExt::is_empty(&r), r.is_empty(), "Range {s}..={e} mismatch");
    }
}

#[test]
fn test_with_bound_overflow_uses_default() {
    assert_eq!((5u32..10).start_with_bound(0), 5);
    assert_eq!((..10u32).start_with_bound(0), 0);
    assert_eq!((5u32..=9).end_with_bound(100), 10);
    assert_eq!((0usize..=usize::MAX).end_with_bound(usize::MAX), usize::MAX);
    let r: (Bound<usize>, Bound<usize>) = (Bound::Excluded(usize::MAX), Bound::Unbounded);
    assert_eq!(r.start_with_bound(7), 7);
}

#[test]
fn test_bounds() {
    assert_eq!((3u32..7).bounds(0..10), 3..7);
    assert_eq!((..7u32).bounds(0..10), 0..7);
    assert_eq!((3u32..).bounds(0..10), 3..10);
    assert_eq!((0usize..=usize::MAX).bounds(0..usize::MAX), 0..usize::MAX);
}

#[test]
fn inverted_signed_range_has_no_size() {
    assert_eq!((10i32..5).size(), None);
    assert_eq!((5i64..=-5).size(), None);
    assert_eq!((i8::MIN..i8::MAX).size(), None);
}

#[test]
fn full_range_is_full() {
    let full = ..;
    assert!(RangeBoundsExt::<u32>::is_full(&full));
    assert!(!RangeBoundsExt::<u32>::is_empty(&full));
    assert!(!(0u32..10).is_full());
    assert!(!(..10u32).is_full());
    assert!(!(3u32..).is_full());
}

#[test]
fn excluded_start_counts_from_the_next_number() {
    let r: (Bound<u8>, Bound<u8>) = (Bound::Excluded(3), Bound::Excluded(4));
    assert_eq!(r.size(), Some(0));
    // The raw bounds are compared, and 3 is before 4.
    assert!(!r.is_empty());
    let r: (Bound<u8>, Bound<u8>) = (Bound::Excluded(4), Bound::Excluded(4));
    assert!(r.is_empty());
    assert_eq!(r.size(), None);
    let r: (Bound<u8>, Bound<u8>) = (Bound::Excluded(3), Bound::Included(4));
    assert!(!r.is_empty());
    assert_eq!(r.size(), Some(1));
}

#[test]
fn map_applies_to_the_bounds() {
    let r = RangeBoundsExt::map(&(3u32..=7), |v| *v as u64 * 10);
    assert_eq!(r, (Bound::Included(30), Bound::Included(70)));
    let r = RangeBoundsExt::map(&(3u32..), |v| *v + 1);
    assert_eq!(r, (Bound::Included(4), Bound::Unbounded));
}

#[test]
fn arithmetic_stops_at_the_edges() {
    assert_eq!(u8::MAX.safe_add(1), None);
    assert_eq!(250u8.safe_add(5), Some(255));
    assert_eq!(0u8.safe_sub(1), None);
    assert_eq!(i8::MIN.safe_sub(1), None);
    assert_eq!((-3i8).safe_sub(2), Some(-5));
    assert_eq!(u64::zero(), 0);
    assert_eq!(isize::one(), 1);
}

#[test]
fn exhausted_range_is_empty() {
    let mut r = 0u32..=2;
    for _ in 0..3 {
        r.next();
    }
    assert!(RangeBoundsExt::is_empty(&r));
    assert_eq!(r.size(), Some(0));
}

#[test]
fn references_bound_ranges_too() {
    let (three, seven) = (3u32, 7u32);
    assert_eq!(RangeBoundsExt::<u32>::size(&(&three..&seven)), Some(4));
    assert_eq!(RangeBoundsExt::<u32>::size(&(&three..=&seven)), Some(5));
    assert_eq!(RangeBoundsExt::<u32>::start(&(&three..)), Some(3));
    assert_eq!(RangeBoundsExt::<u32>::end(&(..&seven)), Some(7));
    assert_eq!(RangeBoundsExt::<u32>::end(&(..=&seven)), Some(8));
    let r: (Bound<&u32>, Bound<&u32>) = (Bound::Excluded(&three), Bound::Unbounded);
    assert_eq!(RangeBoundsExt::<u32>::bounds(&r, 0..10), 4..10);
}
