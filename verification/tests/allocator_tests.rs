use allocator::arena::ArenaAllocator;
use allocator::buddy::BuddyAllocator;
use allocator::bump::BumpAllocator;
use allocator::linked::LinkAllocator;
use allocator::linked::Metadata;
use allocator::round_address;
use allocator::AllocError;

#[test]
fn it_works() {
    let result = 2 + 2;
    assert_eq!(result, 4);
}

#[test]
fn round_address_values() {
    assert_eq!(round_address(0, 16), 0);
    assert_eq!(round_address(5, 4), 8);
    assert_eq!(round_address(8, 4), 8);
    assert_eq!(round_address(17, 8), 24);
}

#[test]
fn buddy_new_layout() {
    let a = BuddyAllocator::new(0, 1024, 16);
    assert_eq!(a.size_limit(), 1024);
    assert!(a.includes(0));
    assert!(a.includes(1023));
    // the range is half-open: one past the end is outside
    assert!(!a.includes(1024));
    // the whole range starts as the single level-0 block
    assert_eq!(a.free_lists.len(), 7);
    assert_eq!(a.free_lists[0], vec![0u32]);
    for level in 1..a.free_lists.len() {
        assert!(a.free_lists[level].is_empty());
    }
}

#[test]
fn buddy_level_size_values() {
    let a = BuddyAllocator::new(0, 1024, 16);
    // 1024, 512, 256, 128, 64, 32, 16 for levels 0..=6
    assert_eq!(a.level_size(1024), Some(0));
    assert_eq!(a.level_size(100), Some(3));
    assert_eq!(a.level_size(16), Some(6));
    assert_eq!(a.level_size(1), Some(6));
    assert_eq!(a.level_size(1025), None);
}

#[test]
fn buddy_allocate_splits_to_exact_addresses() {
    let mut a = BuddyAllocator::new(0, 1024, 16);
    // 100 bytes is served by a 128-byte block
    assert_eq!(a.allocate(100, 1), Ok(0));
    assert_eq!(a.allocate(100, 1), Ok(128));
    // the second half of the 256-block was kept free, and so on upward
    assert_eq!(a.allocate(256, 1), Ok(256));
    assert_eq!(a.allocate(512, 1), Ok(512));
}

#[test]
fn buddy_range_exceeded() {
    let mut a = BuddyAllocator::new(0, 1024, 16);
    assert_eq!(a.allocate(2000, 1), Err(AllocError::RangeExceeded));
    // the capacity is untouched afterwards
    assert_eq!(a.allocate(1024, 1), Ok(0));
}

#[test]
fn buddy_out_of_memory() {
    let mut a = BuddyAllocator::new(0, 1024, 16);
    assert_eq!(a.allocate(1024, 1), Ok(0));
    assert_eq!(a.allocate(16, 1), Err(AllocError::OutOfMemory));
}

#[test]
fn buddy_zero_size_takes_one_leaf() {
    let mut a = BuddyAllocator::new(0, 1024, 16);
    // size 0 normalizes to the leaf granularity
    assert_eq!(a.allocate(0, 1), Ok(0));
    assert_eq!(a.allocate(16, 1), Ok(16));
}

#[test]
fn buddy_merge_rebuilds_full_block() {
    let mut a = BuddyAllocator::new(0, 1024, 16);
    // two minimum-size blocks
    let first = a.allocate(16, 1).unwrap();
    let second = a.allocate(16, 1).unwrap();
    assert_eq!((first, second), (0, 16));
    a.deallocate(first, 16, 1);
    a.deallocate(second, 16, 1);
    // merging must have propagated back to level 0
    assert_eq!(a.allocate(1024, 1), Ok(0));
}

#[test]
fn buddy_round_trip() {
    let mut a = BuddyAllocator::new(0, 1024, 16);
    let addr = a.allocate(100, 8).unwrap();
    a.deallocate(addr, 100, 8);
    assert_eq!(a.allocate(100, 8), Ok(addr));
}

// The serving block size for a normalized request, mirroring the level rule:
// the smallest power-of-two multiple of the leaf that covers the request.
fn buddy_served_bytes(limit: usize, leaf: usize, size: usize, align: usize) -> usize {
    let mut norm = size.max(align).max(leaf);
    if norm > limit {
        norm = limit;
    }
    let mut bytes = limit;
    while bytes / 2 >= norm && bytes / 2 >= leaf {
        bytes /= 2;
    }
    bytes
}

#[test]
fn buddy_conservation_and_no_overlap_under_stress() {
    let limit: usize = 4096;
    let leaf: usize = 16;
    let mut a = BuddyAllocator::new(0, limit, leaf as u16);
    let mut live: Vec<(usize, usize, usize, usize)> = Vec::new();
    let mut seed: u64 = 0x2545F4914F6CDD1D;
    for _ in 0..400 {
        seed = seed
            .wrapping_mul(6364136223846793005)
            .wrapping_add(1442695040888963407);
        let r = (seed >> 33) as usize;
        if live.is_empty() || r % 3 != 0 {
            let size = 1 + (r / 7) % 300;
            let align = [1usize, 2, 4, 8, 16][(r / 11) % 5];
            if let Ok(addr) = a.allocate(size, align) {
                let served = buddy_served_bytes(limit, leaf, size, align);
                // the returned span stays inside the managed range
                assert!(addr + served <= limit);
                // no two simultaneously allocated spans overlap
                for &(b, _, _, bserved) in &live {
                    assert!(addr + served <= b || b + bserved <= addr);
                }
                live.push((addr, size, align, served));
            }
        } else {
            let k = (r / 13) % live.len();
            let (addr, size, align, _) = live.swap_remove(k);
            a.deallocate(addr, size, align);
        }
        // conservation: free bytes and allocated bytes partition the range
        let mut free_bytes: usize = 0;
        let mut level_bytes = limit;
        for level in 0..a.free_lists.len() {
            free_bytes += a.free_lists[level].len() * level_bytes;
            level_bytes /= 2;
        }
        let allocated_bytes: usize = live.iter().map(|e| e.3).sum();
        assert_eq!(free_bytes + allocated_bytes, limit);
    }
    // returning everything makes the whole capacity allocatable again
    for (addr, size, align, _) in live.drain(..) {
        a.deallocate(addr, size, align);
    }
    assert_eq!(a.allocate(limit, 1), Ok(0));
}

#[test]
fn metadata_accessors() {
    let m = Metadata::new(40, 24);
    assert_eq!(m.space_start(), 40);
    assert_eq!(m.space_end(), 64);
}

#[test]
fn linked_size_align_normalizes() {
    assert_eq!(LinkAllocator::size_align(50, 1), (56, 8));
    assert_eq!(LinkAllocator::size_align(0, 1), (16, 8));
    assert_eq!(LinkAllocator::size_align(16, 32), (32, 32));
    assert_eq!(LinkAllocator::size_align(1, 2), (16, 8));
}

#[test]
fn linked_alloc_to_rejects_small_leftover() {
    // 64-byte region: a 56-byte request would strand 8 bytes
    let r = Metadata::new(0, 64);
    assert_eq!(LinkAllocator::alloc_to(&r, 56, 8), Err(()));
    // exact fit is fine
    assert_eq!(LinkAllocator::alloc_to(&r, 64, 8), Ok(0));
    // leaving a reusable leftover is fine
    assert_eq!(LinkAllocator::alloc_to(&r, 48, 8), Ok(0));
}

#[test]
fn linked_first_fit_selection() {
    let mut l = LinkAllocator::new();
    // free regions of sizes [64, 128, 32] in list order
    l.addreg(512, 32);
    l.addreg(128, 128);
    l.addreg(0, 64);
    // 50 bytes normalizes to 56; the 64-byte region would strand 8 bytes, so
    // the request is served from the 128-byte region, not the smallest fit
    assert_eq!(l.allocate(50, 1), Ok(128));
}

#[test]
fn linked_allocate_and_leftover() {
    let mut l = LinkAllocator::new();
    l.initialize(0, 256);
    assert_eq!(l.allocate(50, 1), Ok(0));
    // the tail leftover went back to the list head
    assert_eq!(l.regions.len(), 1);
    assert_eq!(l.regions[0].space_start(), 56);
    assert_eq!(l.regions[0].space_end(), 256);
}

#[test]
fn linked_out_of_memory_and_overflow() {
    let mut l = LinkAllocator::new();
    l.initialize(0, 64);
    assert_eq!(l.allocate(100, 1), Err(AllocError::OutOfMemory));
    assert_eq!(l.allocate(usize::MAX - 4, 8), Err(AllocError::Overflow));
}

#[test]
fn linked_zero_size_takes_minimum_granularity() {
    let mut l = LinkAllocator::new();
    l.initialize(0, 64);
    assert_eq!(l.allocate(0, 1), Ok(0));
    // 16 bytes were consumed
    assert_eq!(l.allocate(0, 1), Ok(16));
}

#[test]
fn linked_coalesce_adjacent_in_either_order() {
    // freeing two adjacent spans leaves exactly one region covering both
    let mut l = LinkAllocator::new();
    l.deallocate(0, 32, 1);
    l.deallocate(32, 32, 1);
    assert_eq!(l.regions.len(), 1);
    assert_eq!(l.regions[0].space_start(), 0);
    assert_eq!(l.regions[0].space_end(), 64);
    assert_eq!(l.allocate(64, 1), Ok(0));

    let mut l2 = LinkAllocator::new();
    l2.deallocate(32, 32, 1);
    l2.deallocate(0, 32, 1);
    assert_eq!(l2.regions.len(), 1);
    assert_eq!(l2.regions[0].space_start(), 0);
    assert_eq!(l2.regions[0].space_end(), 64);
    assert_eq!(l2.allocate(64, 1), Ok(0));
}

#[test]
fn linked_coalesce_both_sides() {
    let mut l = LinkAllocator::new();
    l.initialize(0, 256);
    let a = l.allocate(64, 1).unwrap();
    let b = l.allocate(64, 1).unwrap();
    l.deallocate(a, 64, 1);
    // freeing b must merge with the region left of it and the tail region
    l.deallocate(b, 64, 1);
    assert_eq!(l.regions.len(), 1);
    assert_eq!(l.regions[0].space_start(), 0);
    assert_eq!(l.regions[0].space_end(), 256);
}

#[test]
fn linked_round_trip() {
    let mut l = LinkAllocator::new();
    l.initialize(0, 256);
    let addr = l.allocate(40, 8).unwrap();
    l.deallocate(addr, 40, 8);
    assert_eq!(l.allocate(40, 8), Ok(addr));
}

#[test]
fn arena_cursor_and_reset() {
    let mut a = ArenaAllocator::new();
    a.initialize(100, 200);
    assert_eq!(a.allocate(10, 1), Ok(100));
    assert_eq!(a.allocate(10, 4), Ok(112));
    assert_eq!(a.allocate(1000, 1), Err(AllocError::OutOfMemory));
    a.deallocate();
    a.deallocate();
    // outstanding allocations reached zero: the cursor reset
    assert_eq!(a.allocate(10, 1), Ok(100));
}

#[test]
fn arena_overflow() {
    let mut a = ArenaAllocator::new();
    a.initialize(usize::MAX - 8, usize::MAX);
    assert_eq!(a.allocate(16, 1), Err(AllocError::Overflow));
}

#[test]
fn bump_cursor_and_reset() {
    let mut b = BumpAllocator::new();
    b.initialize(0, 64);
    assert_eq!(b.allocate(0, 1), Ok(0));
    assert_eq!(b.allocate(24, 8), Ok(0));
    assert_eq!(b.allocate(24, 8), Ok(24));
    assert_eq!(b.allocate(24, 8), Err(AllocError::OutOfMemory));
    b.deallocate();
    b.deallocate();
    b.deallocate();
    assert_eq!(b.allocate(64, 1), Ok(0));
}

#[test]
fn buddy_alignment_raises_block_size() {
    let mut a = BuddyAllocator::new(0, 1024, 16);
    // a 20-byte request at alignment 256 consumes a whole 256-byte block
    assert_eq!(a.allocate(20, 256), Ok(0));
    assert_eq!(a.allocate(256, 1), Ok(256));
}

#[test]
fn linked_aligned_start_inside_region() {
    let mut l = LinkAllocator::new();
    l.addreg(8, 120);
    // the allocation starts at the aligned address inside the region
    assert_eq!(l.allocate(32, 64), Ok(64));
    assert_eq!(l.regions.len(), 0);
}
