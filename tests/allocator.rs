use heap_sim::allocator::{AllocError, Allocator};
use heap_sim::arena::{Arena, HEAP_SIZE};
use heap_sim::report::{HeapStatus, Mark};
use heap_sim::table::{Block, BlockTable};

fn used(start: usize, size: usize) -> Block {
    Block { start, size, is_free: false }
}

fn free(start: usize, size: usize) -> Block {
    Block { start, size, is_free: true }
}

fn assert_invariants(a: &Allocator) {
    let blocks = a.blocks();
    for w in blocks.windows(2) {
        assert!(w[0].start <= w[1].start);
        assert!(w[0].start + w[0].size <= w[1].start);
        assert!(!(w[0].is_free && w[1].is_free && w[0].start + w[0].size == w[1].start));
    }
    for b in &blocks {
        assert!(b.start + b.size <= a.capacity());
    }
    let used_sum: usize = blocks.iter().filter(|b| !b.is_free).map(|b| b.size).sum();
    assert!(used_sum <= a.capacity());
}

#[test]
fn scenario_two_bump_allocations() {
    let mut a = Allocator::new();
    assert_eq!(a.capacity(), 1024);
    assert_eq!(a.allocate(64), Ok(0));
    assert_eq!(a.allocate(128), Ok(64));
    assert_eq!(a.blocks(), vec![used(0, 64), used(64, 128)]);
}

#[test]
fn scenario_reuse_keeps_size() {
    let mut a = Allocator::new();
    let h = a.allocate(64).unwrap();
    assert_eq!(h, 0);
    assert_eq!(a.free(h), Ok(()));
    assert_eq!(a.allocate(32), Ok(0));
    assert_eq!(a.blocks(), vec![used(0, 64)]);
}

#[test]
fn scenario_free_both_then_merge() {
    let mut a = Allocator::new();
    let h1 = a.allocate(100).unwrap();
    let h2 = a.allocate(100).unwrap();
    assert_eq!(a.free(h1), Ok(()));
    assert_eq!(a.blocks(), vec![free(0, 100), used(100, 100)]);
    assert_eq!(a.free(h2), Ok(()));
    a.merge_free_blocks();
    assert_eq!(a.blocks(), vec![free(0, 200)]);
}

#[test]
fn scenario_full_arena_out_of_memory() {
    let mut a = Allocator::new();
    assert_eq!(a.allocate(1024), Ok(0));
    assert_eq!(a.allocate(1), Err(AllocError::OutOfMemory));
    assert_eq!(a.block_count(), 1);
    assert_eq!(a.blocks(), vec![used(0, 1024)]);
}

#[test]
fn scenario_free_unknown_handle() {
    let mut a = Allocator::new();
    a.allocate(64).unwrap();
    a.allocate(32).unwrap();
    let before = a.blocks();
    assert_eq!(a.free(10), Err(AllocError::InvalidHandle));
    assert_eq!(a.free(5000), Err(AllocError::InvalidHandle));
    assert_eq!(a.blocks(), before);
}

#[test]
fn free_on_empty_table_is_invalid() {
    let mut a = Allocator::new();
    assert_eq!(a.free(0), Err(AllocError::InvalidHandle));
    assert_eq!(a.block_count(), 0);
}

#[test]
fn first_fit_takes_lowest_start() {
    let mut a = Allocator::new();
    let h0 = a.allocate(64).unwrap();
    let _h1 = a.allocate(8).unwrap();
    let h2 = a.allocate(64).unwrap();
    let _h3 = a.allocate(8).unwrap();
    a.free(h2).unwrap();
    a.free(h0).unwrap();
    assert_eq!(a.allocate(16), Ok(0));
    assert_eq!(a.allocate(16), Ok(72));
    assert_eq!(a.block_count(), 4);
}

#[test]
fn first_fit_skips_small_free_blocks() {
    let mut a = Allocator::new();
    let h0 = a.allocate(16).unwrap();
    a.allocate(8).unwrap();
    let h2 = a.allocate(64).unwrap();
    a.allocate(8).unwrap();
    a.free(h0).unwrap();
    a.free(h2).unwrap();
    assert_eq!(a.allocate(32), Ok(24));
    assert_eq!(a.block(0), free(0, 16));
}

#[test]
fn freed_gap_is_not_reused_by_bump() {
    let mut a = Allocator::new();
    let h0 = a.allocate(64).unwrap();
    a.allocate(64).unwrap();
    a.free(h0).unwrap();
    assert_eq!(a.allocate(100), Ok(128));
    assert_eq!(a.blocks(), vec![free(0, 64), used(64, 64), used(128, 100)]);
}

#[test]
fn coalesce_twice_changes_nothing() {
    let mut a = Allocator::new();
    let hs: Vec<usize> = (0..5).map(|_| a.allocate(40).unwrap()).collect();
    a.free(hs[1]).unwrap();
    a.free(hs[3]).unwrap();
    a.free(hs[2]).unwrap();
    let once = a.blocks();
    assert_eq!(once, vec![used(0, 40), free(40, 120), used(160, 40)]);
    a.merge_free_blocks();
    let twice = a.blocks();
    a.merge_free_blocks();
    assert_eq!(twice, once);
    assert_eq!(a.blocks(), once);
}

#[test]
fn table_coalesce_merges_runs() {
    let mut t = BlockTable::new();
    t.append(0, 10);
    t.append(10, 20);
    t.append(30, 5);
    t.append(40, 5);
    t.append(45, 5);
    for i in 0..5 {
        t.set_free(i, true);
    }
    t.coalesce();
    assert_eq!(t.len(), 2);
    assert_eq!(t.get(0), free(0, 35));
    assert_eq!(t.get(1), free(40, 10));
    t.coalesce();
    assert_eq!(t.len(), 2);
}

#[test]
fn table_primitives() {
    let mut t = BlockTable::new();
    assert_eq!(t.next_bump_offset(), 0);
    assert_eq!(t.find_first_free(0), None);
    t.append(0, 16);
    t.append(16, 32);
    t.append(48, 8);
    assert_eq!(t.next_bump_offset(), 56);
    assert_eq!(t.locate_by_start(16), Some(1));
    assert_eq!(t.locate_by_start(17), None);
    assert_eq!(t.find_first_free(1), None);
    t.set_free(1, true);
    t.set_free(2, true);
    assert_eq!(t.find_first_free(8), Some(1));
    assert_eq!(t.find_first_free(33), None);
    t.set_free(1, false);
    assert_eq!(t.find_first_free(8), Some(2));
}

#[test]
fn double_free_succeeds_again() {
    let mut a = Allocator::new();
    let h = a.allocate(64).unwrap();
    a.allocate(64).unwrap();
    assert_eq!(a.free(h), Ok(()));
    let after_first = a.blocks();
    assert_eq!(a.free(h), Ok(()));
    assert_eq!(a.blocks(), after_first);
}

#[test]
fn zero_size_request_appends_marker() {
    let mut a = Allocator::new();
    assert_eq!(a.allocate(0), Ok(0));
    assert_eq!(a.blocks(), vec![used(0, 0)]);
    assert_eq!(a.allocate(8), Ok(0));
    assert_eq!(a.blocks(), vec![used(0, 0), used(0, 8)]);
    assert_invariants(&a);
}

#[test]
fn zero_size_request_reuses_any_free_block() {
    let mut a = Allocator::new();
    let h = a.allocate(24).unwrap();
    a.allocate(8).unwrap();
    a.free(h).unwrap();
    assert_eq!(a.allocate(0), Ok(0));
    assert_eq!(a.block(0), used(0, 24));
}

#[test]
fn exact_fill_then_out_of_memory() {
    let mut a = Allocator::with_capacity(100);
    assert_eq!(a.allocate(60), Ok(0));
    assert_eq!(a.allocate(41), Err(AllocError::OutOfMemory));
    assert_eq!(a.allocate(40), Ok(60));
    assert_eq!(a.allocate(0), Ok(100));
    assert_eq!(a.allocate(1), Err(AllocError::OutOfMemory));
    assert_eq!(a.block_count(), 3);
}

#[test]
fn huge_request_is_out_of_memory() {
    let mut a = Allocator::new();
    a.allocate(10).unwrap();
    assert_eq!(a.allocate(usize::MAX), Err(AllocError::OutOfMemory));
    assert_eq!(a.blocks(), vec![used(0, 10)]);
}

#[test]
fn status_counts_used_blocks() {
    let mut a = Allocator::new();
    assert_eq!(
        a.status(),
        HeapStatus { total_capacity: HEAP_SIZE, used_bytes: 0, free_bytes: 1024 }
    );
    let h = a.allocate(100).unwrap();
    a.allocate(200).unwrap();
    a.free(h).unwrap();
    assert_eq!(
        a.status(),
        HeapStatus { total_capacity: 1024, used_bytes: 200, free_bytes: 824 }
    );
}

#[test]
fn visualize_marks_blocks() {
    let mut a = Allocator::new();
    assert!(a.visualize().is_empty());
    let h = a.allocate(20).unwrap();
    a.allocate(3).unwrap();
    a.allocate(0).unwrap();
    a.allocate(16).unwrap();
    a.free(h).unwrap();
    let expected = vec![
        Mark::Free,
        Mark::Free,
        Mark::Used,
        Mark::Used,
        Mark::Used,
    ];
    assert_eq!(a.visualize(), expected);
}

#[test]
fn invariants_hold_over_mixed_operations() {
    let mut a = Allocator::with_capacity(512);
    let mut handles = Vec::new();
    let sizes = [32usize, 8, 64, 1, 0, 100, 16, 200, 48];
    for (n, s) in sizes.iter().enumerate() {
        if let Ok(h) = a.allocate(*s) {
            handles.push(h);
        }
        if n % 3 == 2 {
            let h = handles[n / 2];
            let _ = a.free(h);
        }
        assert_invariants(&a);
    }
    for h in handles {
        let _ = a.free(h);
        assert_invariants(&a);
    }
    let st = a.status();
    assert_eq!(st.used_bytes + st.free_bytes, st.total_capacity);
}

#[test]
fn arena_bounds() {
    let arena = Arena::new(16);
    assert_eq!(arena.capacity(), 16);
    assert!(arena.contains(0));
    assert!(arena.contains(15));
    assert!(!arena.contains(16));
}
