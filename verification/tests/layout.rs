use core::sync::atomic::{AtomicU64, Ordering};
use fds::layout::{assert_align, cache_line_size, CachePadded, HotCold, PaddedCounter};

/// Byte distance between two places.
fn distance<A, B>(a: &A, b: &B) -> usize {
    core::ptr::from_ref(a).addr().abs_diff(core::ptr::from_ref(b).addr())
}

#[test]
fn cache_padded_is_64_aligned() {
    assert_eq!(core::mem::align_of::<CachePadded<u64>>(), 64);
    let a = [CachePadded::new(1u64), CachePadded::new(2u64)];
    assert_eq!(distance(&a[0], &a[1]), 64);
}

#[test]
fn padded_counter_works() {
    let c = PaddedCounter::new(AtomicU64::new(0));
    c.fetch_add(1, Ordering::Relaxed);
    assert_eq!(c.load(Ordering::Relaxed), 1);
}

#[test]
fn hot_cold_does_not_share_line_by_default_layout() {
    assert_eq!(core::mem::align_of::<HotCold<u64, u64>>(), 8);
    assert_align::<CachePadded<u64>>(64);
    let p = HotCold::new(1u64, 2u64);
    assert_eq!((p.hot, p.cold), (1, 2));
}

#[test]
fn static_asserts_cache_padded_elements_never_share_a_line() {
    let a = [CachePadded::new(0u64), CachePadded::new(0u64)];
    assert_eq!(distance(&a[0], &a[1]), 64);
    assert_eq!(cache_line_size(), 64);
}

#[test]
fn cache_padded_elements_never_share_a_line() {
    let a = [CachePadded::new(0u64), CachePadded::new(0u64)];
    assert_eq!(distance(&a[0], &a[1]), 64);
    assert_eq!(cache_line_size(), 64);
}

#[test]
fn alignment_is_compared() {
    assert_align::<CachePadded<u8>>(64);
    assert_align::<u16>(2);
}

#[test]
fn padded_default_is_the_default_inside() {
    assert_eq!(CachePadded::<u64>::default().into_inner(), 0);
    assert_eq!(CachePadded::<String>::default().get(), "");
}
