use glommio::task::arena::{TaskArena, MAX_ALIGN, MAX_TASK_SIZE, SLOT_CAPACITY, SLOT_SIZE};

const BASE: usize = 0x4000_0000;

#[test]
fn test_arena_basic_allocation() {
    let mut arena = TaskArena::new(BASE);

    let ptr1 = arena.try_allocate(256, 8);
    assert!(ptr1.is_some());

    let ptr2 = arena.try_allocate(256, 8);
    assert!(ptr2.is_some());

    assert_ne!(ptr1.unwrap(), ptr2.unwrap());

    let stats = arena.stats();
    assert_eq!(stats.arena_allocs, 2);
    assert_eq!(stats.active_slots, 2);
    assert_eq!(stats.heap_fallback_allocs, 0);
}

#[test]
fn test_arena_full_then_recycle() {
    let mut arena = TaskArena::new(BASE);

    let mut ptrs = Vec::new();
    for _ in 0..SLOT_CAPACITY {
        let ptr = arena.try_allocate(MAX_TASK_SIZE, 8).expect("Arena should have space");
        ptrs.push(ptr);
    }

    assert!(arena.try_allocate(MAX_TASK_SIZE, 8).is_none());

    let stats = arena.stats();
    assert_eq!(stats.arena_allocs, SLOT_CAPACITY);
    assert_eq!(stats.active_slots, SLOT_CAPACITY);

    for ptr in ptrs.iter().take(SLOT_CAPACITY / 2) {
        let recycled = arena.try_deallocate(*ptr);
        assert!(recycled, "Should recycle arena pointer");
    }

    let stats = arena.stats();
    assert_eq!(stats.arena_deallocs, SLOT_CAPACITY / 2);
    assert_eq!(stats.active_slots, SLOT_CAPACITY / 2);

    for _ in 0..(SLOT_CAPACITY / 2) {
        let ptr = arena.try_allocate(MAX_TASK_SIZE, 8);
        assert!(ptr.is_some(), "Should allocate from recycled slots");
    }

    let stats = arena.stats();
    assert_eq!(stats.arena_allocs, SLOT_CAPACITY + SLOT_CAPACITY / 2);
    assert_eq!(stats.active_slots, SLOT_CAPACITY);
}

#[test]
fn test_free_list_lifo_order() {
    let mut arena = TaskArena::new(BASE);

    let p1 = arena.try_allocate(256, 8).unwrap();
    let p2 = arena.try_allocate(256, 8).unwrap();
    let p3 = arena.try_allocate(256, 8).unwrap();

    arena.try_deallocate(p1);
    arena.try_deallocate(p2);
    arena.try_deallocate(p3);

    let r1 = arena.try_allocate(256, 8).unwrap();
    assert_eq!(r1, p3, "Should get last freed (p3)");

    let r2 = arena.try_allocate(256, 8).unwrap();
    assert_eq!(r2, p2, "Should get second last freed (p2)");

    let r3 = arena.try_allocate(256, 8).unwrap();
    assert_eq!(r3, p1, "Should get first freed (p1)");
}

#[test]
fn test_deallocate_non_arena_pointer() {
    let mut arena = TaskArena::new(BASE);

    let heap = vec![0u8; 256];
    let heap_ptr = heap.as_ptr() as usize;
    let outside = if heap_ptr >= BASE && heap_ptr < BASE + SLOT_CAPACITY * SLOT_SIZE {
        BASE - 64
    } else {
        heap_ptr
    };

    let recycled = arena.try_deallocate(outside);
    assert!(!recycled, "Heap pointer should not be recycled to arena");
}

#[test]
fn test_stats_tracking() {
    let mut arena = TaskArena::new(BASE);

    let p1 = arena.try_allocate(256, 8).unwrap();
    let p2 = arena.try_allocate(256, 8).unwrap();
    let p3 = arena.try_allocate(256, 8).unwrap();

    let stats = arena.stats();
    assert_eq!(stats.arena_allocs, 3);
    assert_eq!(stats.arena_deallocs, 0);
    assert_eq!(stats.active_slots, 3);
    assert_eq!(stats.peak_active, 3);

    arena.try_deallocate(p2);

    let stats = arena.stats();
    assert_eq!(stats.arena_allocs, 3);
    assert_eq!(stats.arena_deallocs, 1);
    assert_eq!(stats.active_slots, 2);
    assert_eq!(stats.peak_active, 3);

    let p4 = arena.try_allocate(256, 8).unwrap();

    let stats = arena.stats();
    assert_eq!(stats.arena_allocs, 4);
    assert_eq!(stats.active_slots, 3);
    assert_eq!(stats.peak_active, 3);

    arena.try_deallocate(p1);
    arena.try_deallocate(p3);
    arena.try_deallocate(p4);
}

#[test]
fn test_arena_reset_rebuilds_free_list() {
    let mut arena = TaskArena::new(BASE);

    let p1 = arena.try_allocate(256, 8).unwrap();
    let _p2 = arena.try_allocate(256, 8).unwrap();
    arena.try_deallocate(p1);

    assert_eq!(arena.stats().arena_allocs, 2);
    assert_eq!(arena.stats().active_slots, 1);

    arena.reset();

    let stats = arena.stats();
    assert_eq!(stats.arena_allocs, 0);
    assert_eq!(stats.arena_deallocs, 0);
    assert_eq!(stats.active_slots, 0);
    assert_eq!(stats.peak_active, 0);

    for _ in 0..SLOT_CAPACITY {
        let ptr = arena.try_allocate(256, 8);
        assert!(ptr.is_some(), "Should allocate after reset");
    }

    assert_eq!(arena.stats().arena_allocs, SLOT_CAPACITY);
}

#[test]
fn test_oversized_rejected() {
    let mut arena = TaskArena::new(BASE);

    let ptr = arena.try_allocate(MAX_TASK_SIZE + 1, 8);
    assert!(ptr.is_none(), "Oversized allocation should be rejected");
}

#[test]
fn test_high_alignment_rejected() {
    let mut arena = TaskArena::new(BASE);

    let ptr = arena.try_allocate(256, MAX_ALIGN * 2);
    assert!(ptr.is_none(), "Over-aligned allocation should be rejected");
}

#[test]
fn slots_are_handed_out_in_order_at_slot_addresses() {
    let mut arena = TaskArena::new(BASE);
    assert_eq!(arena.base(), BASE);
    assert_eq!(arena.try_allocate(1, 1), Some(BASE));
    assert_eq!(arena.try_allocate(MAX_TASK_SIZE, MAX_ALIGN), Some(BASE + SLOT_SIZE));
    assert_eq!(arena.try_allocate(0, 64), Some(BASE + 2 * SLOT_SIZE));
    assert_eq!(arena.stats().slot_capacity, 100_000);
    assert!(!arena.is_free(0));
    assert!(!arena.is_free(2));
    assert!(arena.is_free(3));
    assert!(arena.is_free(99_999));
    assert!(!arena.is_free(100_000));
}

#[test]
fn rejected_requests_change_nothing() {
    let mut arena = TaskArena::new(BASE);
    arena.try_allocate(8, 8).unwrap();
    let before = arena.stats();
    assert_eq!(arena.try_allocate(1025, 8), None);
    assert_eq!(arena.try_allocate(8, 65), None);
    assert_eq!(arena.stats(), before);
    assert_eq!(arena.try_allocate(8, 8), Some(BASE + SLOT_SIZE));
}

#[test]
fn addresses_that_are_no_slot_are_turned_away() {
    let mut arena = TaskArena::new(BASE);
    let slot = arena.try_allocate(8, 8).unwrap();
    let before = arena.stats();
    assert!(!arena.try_deallocate(slot + 1));
    assert!(!arena.try_deallocate(slot + 512));
    assert!(!arena.try_deallocate(BASE - 1));
    assert!(!arena.try_deallocate(BASE + SLOT_CAPACITY * SLOT_SIZE));
    assert!(!arena.try_deallocate(0));
    assert_eq!(arena.stats(), before);
    assert!(arena.try_deallocate(slot));
    assert_eq!(arena.stats().active_slots, 0);
}

#[test]
fn alloc_dealloc_alloc_returns_the_same_slot() {
    let mut arena = TaskArena::new(BASE);
    for _ in 0..5 {
        arena.try_allocate(64, 8).unwrap();
    }
    let addr = arena.try_allocate(64, 8).unwrap();
    assert!(addr >= BASE && addr < BASE + SLOT_CAPACITY * SLOT_SIZE);
    assert!(arena.try_deallocate(addr));
    assert!(arena.is_free(5));
    assert_eq!(arena.try_allocate(64, 8), Some(addr));
    assert_eq!(arena.stats().peak_active, 6);
    assert_eq!(arena.stats().arena_allocs, 7);
    assert_eq!(arena.stats().arena_deallocs, 1);
}

#[test]
fn last_slot_of_the_block_can_be_given_back() {
    let mut arena = TaskArena::new(BASE);
    let mut last = 0;
    for _ in 0..SLOT_CAPACITY {
        last = arena.try_allocate(8, 8).unwrap();
    }
    assert_eq!(last, BASE + (SLOT_CAPACITY - 1) * SLOT_SIZE);
    assert!(arena.try_deallocate(last));
    assert_eq!(arena.try_allocate(8, 8), Some(last));
    assert_eq!(arena.try_allocate(8, 8), None);
}
