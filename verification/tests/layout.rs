use block_gc::layout::{block_capacity, request_size};
use block_gc::{AllocFlags, BLOCK_SIZE};

#[test]
fn default_capacity_is_one_page() {
    assert_eq!(BLOCK_SIZE, 4096);
}

#[test]
fn request_size_multiplies() {
    assert_eq!(request_size(3, 5), Some(15));
    assert_eq!(request_size(0, 7), Some(0));
    assert_eq!(request_size(8, 0), Some(0));
    assert_eq!(request_size(1, usize::MAX), Some(usize::MAX));
}

#[test]
fn request_size_detects_overflow() {
    assert_eq!(request_size(usize::MAX, 2), None);
    assert_eq!(request_size(usize::MAX / 2 + 1, 2), None);
}

#[test]
fn ordinary_requests_get_the_default_capacity() {
    assert_eq!(block_capacity(0), Some(4096));
    assert_eq!(block_capacity(1), Some(4096));
    assert_eq!(block_capacity(4095), Some(4096));
    assert_eq!(block_capacity(4096), Some(4096));
}

#[test]
fn oversized_requests_get_the_next_power_of_two() {
    assert_eq!(block_capacity(4097), Some(8192));
    assert_eq!(block_capacity(5000), Some(8192));
    assert_eq!(block_capacity(8191), Some(8192));
    assert_eq!(block_capacity(8192), Some(8192));
    assert_eq!(block_capacity(8193), Some(16384));
    assert_eq!(block_capacity(1 << 20), Some(1 << 20));
    assert_eq!(block_capacity((1 << 20) + 1), Some(1 << 21));
}

#[test]
fn capacity_beyond_the_address_limit_is_refused() {
    let top = (isize::MAX as usize + 1) / 2;
    assert_eq!(block_capacity(top), Some(top));
    assert_eq!(block_capacity(top + 1), None);
    assert_eq!(block_capacity(isize::MAX as usize), None);
    assert_eq!(block_capacity(usize::MAX), None);
}

#[test]
fn flags_follow_the_atomic_hint_only() {
    assert_eq!(AllocFlags::from_hints(false, false), AllocFlags::Scannable);
    assert_eq!(AllocFlags::from_hints(true, false), AllocFlags::Scannable);
    assert_eq!(AllocFlags::from_hints(false, true), AllocFlags::Opaque);
    assert_eq!(AllocFlags::from_hints(true, true), AllocFlags::Opaque);
    assert!(AllocFlags::Opaque.is_opaque());
    assert!(!AllocFlags::Scannable.is_opaque());
}
