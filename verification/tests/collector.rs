use block_gc::{AllocFlags, GarbageCollector, GcError, BLOCK_SIZE};

fn ranges_of_used(gc: &GarbageCollector) -> Vec<(usize, usize, usize)> {
    let mut out = Vec::new();
    for i in 0..gc.used_count() {
        let b = gc.used_block(i).unwrap();
        out.push((b.begin(), b.cursor(), b.end()));
    }
    out
}

fn ranges_of_free(gc: &GarbageCollector) -> Vec<(usize, usize, usize)> {
    let mut out = Vec::new();
    for i in 0..gc.free_count() {
        let b = gc.free_block(i).unwrap();
        out.push((b.begin(), b.cursor(), b.end()));
    }
    out
}

#[test]
fn new_collector_has_one_empty_block() {
    let gc = GarbageCollector::new();
    assert!(!gc.is_collecting());
    assert_eq!(gc.used_count(), 1);
    assert_eq!(gc.free_count(), 0);
    assert_eq!(gc.mark_count(), 0);
    assert_eq!(ranges_of_used(&gc), vec![(4096, 4096, 8192)]);
    assert!(gc.used_block(1).is_none());
    assert!(gc.free_block(0).is_none());
}

#[test]
fn same_size_allocations_are_size_bytes_apart() {
    let mut gc = GarbageCollector::new();
    let size = 24;
    let n = BLOCK_SIZE / size;
    let mut addresses = Vec::new();
    for _ in 0..n {
        addresses.push(gc.allocate(size, 1).unwrap());
    }
    assert_eq!(addresses[0], 4096);
    for i in 1..n {
        assert!(addresses[i] > addresses[i - 1]);
        assert_eq!(addresses[i] - addresses[i - 1], size);
    }
    let mut sorted = addresses.clone();
    sorted.dedup();
    assert_eq!(sorted.len(), n);
    assert_eq!(gc.used_count(), 1);
}

#[test]
fn type_size_and_count_multiply() {
    let mut gc = GarbageCollector::new();
    assert_eq!(gc.allocate(8, 4), Ok(4096));
    assert_eq!(gc.allocate(3, 5), Ok(4128));
    assert_eq!(gc.allocate(1, 1), Ok(4143));
    assert_eq!(gc.allocate(0, 100), Ok(4144));
    assert_eq!(gc.allocate(100, 0), Ok(4144));
    assert_eq!(gc.allocate(2, 2), Ok(4144));
}

#[test]
fn a_full_block_is_followed_by_a_new_one() {
    let mut gc = GarbageCollector::new();
    assert_eq!(gc.allocate(1, 4096), Ok(4096));
    assert_eq!(gc.allocate(1, 1), Ok(8192));
    assert_eq!(gc.used_count(), 2);
    assert_eq!(ranges_of_used(&gc), vec![(4096, 8192, 8192), (8192, 8193, 12288)]);
}

#[test]
fn a_request_that_does_not_fit_leaves_the_old_block_as_it_was() {
    let mut gc = GarbageCollector::new();
    assert_eq!(gc.allocate(1, 4000), Ok(4096));
    assert_eq!(gc.allocate(1, 200), Ok(8192));
    assert_eq!(ranges_of_used(&gc), vec![(4096, 8096, 8192), (8192, 8392, 12288)]);
    assert_eq!(gc.allocate(1, 50), Ok(8392));
}

#[test]
fn oversized_request_gets_a_power_of_two_block() {
    let mut gc = GarbageCollector::new();
    assert_eq!(gc.allocate(1, 5000), Ok(8192));
    let block = gc.used_block(1).unwrap();
    assert_eq!(block.capacity(), 8192);
    assert_eq!(block.begin(), 8192);
    assert_eq!(block.cursor(), 8192 + 5000);
}

#[test]
fn oversized_request_of_an_exact_power_of_two_gets_just_that() {
    let mut gc = GarbageCollector::new();
    assert_eq!(gc.allocate(2, 4096), Ok(8192));
    assert_eq!(gc.used_block(1).unwrap().capacity(), 8192);
    assert_eq!(gc.allocate(1, 8193), Ok(16384));
    assert_eq!(gc.used_block(2).unwrap().capacity(), 16384);
    assert_eq!(gc.allocate(1, 1 << 20), Ok(32768));
    assert_eq!(gc.used_block(3).unwrap().capacity(), 1 << 20);
}

#[test]
fn oversized_request_is_served_by_the_current_block_if_it_fits() {
    let mut gc = GarbageCollector::new();
    assert_eq!(gc.allocate(1, 9000), Ok(8192));
    assert_eq!(gc.used_block(1).unwrap().capacity(), 16384);
    assert_eq!(gc.allocate(1, 5000), Ok(8192 + 9000));
    assert_eq!(gc.used_count(), 2);
}

#[test]
fn oversized_request_does_not_take_a_free_block() {
    let mut gc = GarbageCollector::new();
    gc.allocate(1, 9000).unwrap();
    gc.begin_collect().unwrap();
    gc.end_collect().unwrap();
    assert_eq!(gc.used_count(), 0);
    assert_eq!(gc.free_count(), 2);
    assert_eq!(gc.allocate(1, 5000), Ok(8192 + 16384));
    assert_eq!(gc.used_count(), 1);
    assert_eq!(gc.free_count(), 2);
    assert_eq!(gc.used_block(0).unwrap().capacity(), 8192);
}

#[test]
fn blocks_never_overlap() {
    let mut gc = GarbageCollector::new();
    for size in [10usize, 5000, 4096, 70000, 1, 4097, 4000, 4000] {
        gc.allocate(1, size).unwrap();
    }
    let used = ranges_of_used(&gc);
    for i in 0..used.len() {
        for j in 0..used.len() {
            if i != j {
                assert!(used[i].2 <= used[j].0 || used[j].2 <= used[i].0);
            }
        }
    }
}

#[test]
fn an_allocated_address_lies_in_exactly_one_block() {
    let mut gc = GarbageCollector::new();
    let mut addresses = Vec::new();
    for size in [10usize, 5000, 4096, 70000, 1, 4097, 4000, 4000] {
        addresses.push(gc.allocate(1, size).unwrap());
    }
    for address in addresses {
        let mut owners = 0;
        for i in 0..gc.used_count() {
            if gc.used_block(i).unwrap().contains(address) {
                owners += 1;
            }
        }
        assert_eq!(owners, 1);
    }
}

#[test]
fn allocation_is_refused_during_a_cycle() {
    let mut gc = GarbageCollector::new();
    gc.allocate(1, 10).unwrap();
    gc.begin_collect().unwrap();
    assert_eq!(gc.allocate(1, 10), Err(GcError::CollectionInProgress));
    assert_eq!(gc.allocate(usize::MAX, 2), Err(GcError::CollectionInProgress));
    assert_eq!(gc.alloc_slice(&[1], AllocFlags::Opaque).err(), Some(GcError::CollectionInProgress));
    assert_eq!(gc.used_count(), 0);
    assert_eq!(gc.free_count(), 1);
    assert_eq!(ranges_of_free(&gc), vec![(4096, 4106, 8192)]);
}

#[test]
fn unrepresentable_size_exhausts() {
    let mut gc = GarbageCollector::new();
    assert_eq!(gc.allocate(usize::MAX, 2), Err(GcError::Exhausted));
    assert_eq!(gc.allocate(1 << 40, 1 << 40), Err(GcError::Exhausted));
    assert_eq!(ranges_of_used(&gc), vec![(4096, 4096, 8192)]);
    assert_eq!(gc.allocate(1, 1), Ok(4096));
}

#[test]
fn request_beyond_the_address_limit_exhausts() {
    let mut gc = GarbageCollector::new();
    assert_eq!(gc.allocate(1, usize::MAX), Err(GcError::Exhausted));
    assert_eq!(gc.allocate(1, isize::MAX as usize), Err(GcError::Exhausted));
    assert_eq!(gc.allocate(1, (isize::MAX as usize + 1) / 2 + 1), Err(GcError::Exhausted));
    assert_eq!(gc.used_count(), 1);
    assert_eq!(gc.free_count(), 0);
    assert_eq!(gc.allocate(1, 1), Ok(4096));
}

#[test]
fn begin_collect_moves_every_block_to_the_candidates() {
    let mut gc = GarbageCollector::new();
    gc.allocate(1, 4000).unwrap();
    gc.allocate(1, 4000).unwrap();
    assert_eq!(gc.begin_collect(), Ok(()));
    assert!(gc.is_collecting());
    assert_eq!(gc.used_count(), 0);
    assert_eq!(ranges_of_free(&gc), vec![(4096, 8096, 8192), (8192, 12192, 12288)]);
    assert!(gc.free_block(0).unwrap().needs_reset());
    assert!(gc.free_block(1).unwrap().needs_reset());
}

#[test]
fn begin_collect_twice_is_refused() {
    let mut gc = GarbageCollector::new();
    gc.begin_collect().unwrap();
    assert_eq!(gc.begin_collect(), Err(GcError::CollectionInProgress));
    assert!(gc.is_collecting());
    assert_eq!(gc.free_count(), 1);
}

#[test]
fn tracing_outside_a_cycle_is_refused() {
    let mut gc = GarbageCollector::new();
    let at = gc.allocate(1, 8).unwrap();
    assert_eq!(gc.trace_ptr(at), Err(GcError::NoCollection));
    assert_eq!(gc.mark_count(), 0);
}

#[test]
fn end_collect_outside_a_cycle_is_refused() {
    let mut gc = GarbageCollector::new();
    gc.allocate(1, 8).unwrap();
    assert_eq!(gc.end_collect(), Err(GcError::NoCollection));
    assert_eq!(ranges_of_used(&gc), vec![(4096, 4104, 8192)]);
    gc.begin_collect().unwrap();
    assert_eq!(gc.end_collect(), Ok(()));
    assert_eq!(gc.end_collect(), Err(GcError::NoCollection));
}

#[test]
fn trace_ptr_collects_marks() {
    let mut gc = GarbageCollector::new();
    let at = gc.allocate(1, 8).unwrap();
    gc.begin_collect().unwrap();
    assert_eq!(gc.trace_ptr(at), Ok(()));
    assert_eq!(gc.trace_ptr(at), Ok(()));
    assert_eq!(gc.trace_ptr(at + 3), Ok(()));
    assert_eq!(gc.mark_count(), 3);
    gc.end_collect().unwrap();
    assert_eq!(gc.mark_count(), 0);
}

#[test]
fn a_cycle_without_marks_frees_everything() {
    let mut gc = GarbageCollector::new();
    gc.allocate(1, 4000).unwrap();
    gc.allocate(1, 4000).unwrap();
    gc.begin_collect().unwrap();
    gc.end_collect().unwrap();
    assert!(!gc.is_collecting());
    assert_eq!(gc.used_count(), 0);
    assert_eq!(ranges_of_free(&gc), vec![(4096, 4096, 8192), (8192, 8192, 12288)]);
    assert!(!gc.free_block(0).unwrap().needs_reset());
    assert!(!gc.free_block(1).unwrap().needs_reset());
}

#[test]
fn allocation_after_an_empty_cycle_takes_a_free_block() {
    let mut gc = GarbageCollector::new();
    gc.allocate(1, 4000).unwrap();
    gc.allocate(1, 4000).unwrap();
    gc.begin_collect().unwrap();
    gc.end_collect().unwrap();
    assert_eq!(gc.allocate(1, 16), Ok(8192));
    assert_eq!(gc.allocate(1, 16), Ok(8208));
    assert_eq!(gc.used_count(), 1);
    assert_eq!(gc.free_count(), 1);
}

#[test]
fn marked_blocks_are_kept_and_the_others_reset() {
    let mut gc = GarbageCollector::new();
    let a = gc.allocate(1, 3000).unwrap();
    let b = gc.allocate(1, 3000).unwrap();
    let c = gc.allocate(1, 3000).unwrap();
    let d = gc.allocate(1, 3000).unwrap();
    assert_eq!((a, b, c, d), (4096, 8192, 12288, 16384));
    gc.begin_collect().unwrap();
    gc.trace_ptr(b + 2999).unwrap();
    gc.trace_ptr(d).unwrap();
    gc.end_collect().unwrap();
    assert_eq!(ranges_of_used(&gc), vec![(8192, 11192, 12288), (16384, 19384, 20480)]);
    assert_eq!(ranges_of_free(&gc), vec![(4096, 4096, 8192), (12288, 12288, 16384)]);
}

#[test]
fn one_mark_keeps_the_whole_block() {
    let mut gc = GarbageCollector::new();
    let mut addresses = Vec::new();
    for _ in 0..100 {
        addresses.push(gc.allocate(1, 40).unwrap());
    }
    gc.begin_collect().unwrap();
    gc.trace_ptr(addresses[57]).unwrap();
    gc.end_collect().unwrap();
    assert_eq!(ranges_of_used(&gc), vec![(4096, 8096, 8192)]);
    assert_eq!(gc.free_count(), 0);
    assert_eq!(gc.allocate(1, 40), Ok(8096));
}

#[test]
fn marks_are_sorted_before_the_sweep() {
    let mut gc = GarbageCollector::new();
    let a = gc.allocate(1, 3000).unwrap();
    let b = gc.allocate(1, 3000).unwrap();
    let c = gc.allocate(1, 3000).unwrap();
    gc.begin_collect().unwrap();
    gc.trace_ptr(c).unwrap();
    gc.trace_ptr(a).unwrap();
    gc.trace_ptr(c + 5).unwrap();
    gc.trace_ptr(a + 5).unwrap();
    gc.end_collect().unwrap();
    assert_eq!(ranges_of_used(&gc), vec![(a, a + 3000, a + 4096), (c, c + 3000, c + 4096)]);
    assert_eq!(ranges_of_free(&gc), vec![(b, b, b + 4096)]);
}

#[test]
fn candidates_are_sorted_before_the_sweep() {
    let mut gc = GarbageCollector::new();
    let a = gc.allocate(1, 3000).unwrap();
    let b = gc.allocate(1, 3000).unwrap();
    let c = gc.allocate(1, 3000).unwrap();
    gc.begin_collect().unwrap();
    gc.trace_ptr(a).unwrap();
    gc.end_collect().unwrap();
    assert_eq!(ranges_of_free(&gc), vec![(b, b, b + 4096), (c, c, c + 4096)]);
    assert_eq!(gc.allocate(1, 2000), Ok(c));
    assert_eq!(ranges_of_used(&gc), vec![(a, a + 3000, a + 4096), (c, c + 2000, c + 4096)]);
    gc.begin_collect().unwrap();
    assert_eq!(
        ranges_of_free(&gc),
        vec![(b, b, b + 4096), (a, a + 3000, a + 4096), (c, c + 2000, c + 4096)]
    );
    gc.trace_ptr(a + 1).unwrap();
    gc.trace_ptr(c + 1).unwrap();
    gc.end_collect().unwrap();
    assert_eq!(ranges_of_used(&gc), vec![(a, a + 3000, a + 4096), (c, c + 2000, c + 4096)]);
    assert_eq!(ranges_of_free(&gc), vec![(b, b, b + 4096)]);
}

#[test]
fn a_mark_outside_every_block_has_no_effect() {
    let mut gc = GarbageCollector::new();
    let a = gc.allocate(1, 3000).unwrap();
    gc.allocate(1, 3000).unwrap();
    gc.begin_collect().unwrap();
    gc.trace_ptr(0).unwrap();
    gc.trace_ptr(100).unwrap();
    gc.trace_ptr(a).unwrap();
    gc.trace_ptr(12288).unwrap();
    gc.trace_ptr(usize::MAX).unwrap();
    gc.end_collect().unwrap();
    assert_eq!(ranges_of_used(&gc), vec![(4096, 7096, 8192)]);
    assert_eq!(ranges_of_free(&gc), vec![(8192, 8192, 12288)]);
}

#[test]
fn a_mark_past_the_cursor_still_keeps_the_block() {
    let mut gc = GarbageCollector::new();
    gc.allocate(1, 10).unwrap();
    gc.begin_collect().unwrap();
    gc.trace_ptr(8191).unwrap();
    gc.end_collect().unwrap();
    assert_eq!(ranges_of_used(&gc), vec![(4096, 4106, 8192)]);
}

#[test]
fn a_mark_at_the_end_of_a_block_belongs_to_the_next() {
    let mut gc = GarbageCollector::new();
    gc.allocate(1, 4096).unwrap();
    gc.allocate(1, 4096).unwrap();
    gc.begin_collect().unwrap();
    gc.trace_ptr(8192).unwrap();
    gc.end_collect().unwrap();
    assert_eq!(ranges_of_used(&gc), vec![(8192, 12288, 12288)]);
    assert_eq!(ranges_of_free(&gc), vec![(4096, 4096, 8192)]);
}

#[test]
fn a_stale_mark_brings_a_free_block_back() {
    let mut gc = GarbageCollector::new();
    gc.allocate(1, 3000).unwrap();
    gc.allocate(1, 3000).unwrap();
    gc.begin_collect().unwrap();
    gc.trace_ptr(4096).unwrap();
    gc.end_collect().unwrap();
    assert_eq!(ranges_of_free(&gc), vec![(8192, 8192, 12288)]);
    gc.begin_collect().unwrap();
    gc.trace_ptr(8200).unwrap();
    gc.end_collect().unwrap();
    assert_eq!(ranges_of_used(&gc), vec![(8192, 8192, 12288)]);
    assert_eq!(ranges_of_free(&gc), vec![(4096, 4096, 8192)]);
}

#[test]
fn a_recycled_block_starts_from_its_base() {
    let mut gc = GarbageCollector::new();
    gc.allocate(1, 1234).unwrap();
    gc.allocate(1, 2345).unwrap();
    gc.begin_collect().unwrap();
    gc.end_collect().unwrap();
    assert_eq!(gc.allocate(1, 77), Ok(4096));
    assert_eq!(gc.allocate(1, 77), Ok(4096 + 77));
    assert_eq!(ranges_of_used(&gc), vec![(4096, 4096 + 154, 8192)]);
}

#[test]
fn cycles_never_create_or_drop_blocks() {
    let mut gc = GarbageCollector::new();
    for _ in 0..10 {
        gc.allocate(1, 4096).unwrap();
    }
    for round in 0..5 {
        gc.begin_collect().unwrap();
        gc.trace_ptr(4096 * (round + 1)).unwrap();
        gc.end_collect().unwrap();
        assert_eq!(gc.used_count(), 1);
        assert_eq!(gc.free_count(), 9);
        for _ in 0..9 {
            gc.allocate(1, 4096).unwrap();
        }
        assert_eq!(gc.used_count(), 10);
        assert_eq!(gc.free_count(), 0);
    }
}

#[test]
fn two_hundred_objects_two_survivors() {
    let mut gc = GarbageCollector::new();
    let mut addresses = Vec::new();
    for size in 1..=200usize {
        addresses.push(gc.allocate(size, 1).unwrap());
    }
    assert_eq!(gc.used_count(), 5);
    assert_eq!(addresses[0], 4096);
    assert_eq!(addresses[104], 8192 + 1365);
    gc.begin_collect().unwrap();
    gc.trace_ptr(addresses[0]).unwrap();
    gc.trace_ptr(addresses[104]).unwrap();
    gc.end_collect().unwrap();

    assert_eq!(gc.used_count(), 2);
    assert!(gc.used_block(0).unwrap().contains(addresses[0]));
    assert!(gc.used_block(1).unwrap().contains(addresses[104]));
    assert_eq!(ranges_of_used(&gc), vec![(4096, 4096 + 4095, 8192), (8192, 8192 + 4033, 12288)]);
    assert_eq!(
        ranges_of_free(&gc),
        vec![(12288, 12288, 16384), (16384, 16384, 20480), (20480, 20480, 24576)]
    );
    for (i, address) in addresses.iter().enumerate() {
        let kept = (0..gc.used_count()).any(|k| gc.used_block(k).unwrap().contains(*address));
        assert_eq!(kept, i < 127);
    }

    let next = gc.allocate(100, 1).unwrap();
    assert_eq!(next, 20480);
    assert_eq!(gc.used_count(), 3);
    assert_eq!(gc.free_count(), 2);
    assert_eq!(gc.used_block(2).unwrap().begin(), 20480);
    assert_eq!(gc.used_block(2).unwrap().cursor(), 20580);
}

#[test]
fn a_small_request_after_a_cycle_stays_in_the_kept_block() {
    let mut gc = GarbageCollector::new();
    let a = gc.allocate(1, 100).unwrap();
    gc.allocate(1, 4096).unwrap();
    gc.begin_collect().unwrap();
    gc.trace_ptr(a).unwrap();
    gc.end_collect().unwrap();
    assert_eq!(gc.allocate(1, 100), Ok(a + 100));
    assert_eq!(gc.free_count(), 1);
}
