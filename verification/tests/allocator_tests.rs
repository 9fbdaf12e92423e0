use test_os::allocator::FirstFitAllocator;
use test_os::allocator::HEADER_SIZE;
use test_os::allocator::round_up_to_nearest_pow2;
use test_os::uefi::EfiMemoryType;
use test_os::uefi::MemoryDescriptor;
use test_os::uefi::MemoryMapHolder;
use test_os::Error;

fn map_of(regions: &[(EfiMemoryType, u64, u64)]) -> MemoryMapHolder {
    let mut holder = MemoryMapHolder::new();
    for &(t, start, pages) in regions {
        holder.push(MemoryDescriptor::new(t, start, 0, pages, 0));
    }
    holder
}

#[test]
fn round_up_small_values() {
    assert_eq!(round_up_to_nearest_pow2(1), Ok(1));
    assert_eq!(round_up_to_nearest_pow2(2), Ok(2));
    assert_eq!(round_up_to_nearest_pow2(3), Ok(4));
    assert_eq!(round_up_to_nearest_pow2(4), Ok(4));
    assert_eq!(round_up_to_nearest_pow2(5), Ok(8));
    assert_eq!(round_up_to_nearest_pow2(64), Ok(64));
    assert_eq!(round_up_to_nearest_pow2(65), Ok(128));
    assert_eq!(round_up_to_nearest_pow2(1000), Ok(1024));
}

#[test]
fn round_up_zero_fails() {
    assert_eq!(round_up_to_nearest_pow2(0), Err(Error::OutOfRange));
}

#[test]
fn round_up_at_the_top_of_the_range() {
    let top: usize = 1 << 63;
    assert_eq!(round_up_to_nearest_pow2(top), Ok(top));
    assert_eq!(round_up_to_nearest_pow2(top - 5), Ok(top));
    assert_eq!(round_up_to_nearest_pow2(top + 1), Err(Error::OutOfRange));
    assert_eq!(round_up_to_nearest_pow2(usize::MAX), Err(Error::OutOfRange));
}

fn free_payload(heap: &FirstFitAllocator) -> u128 {
    let mut total: u128 = 0;
    for i in 0..heap.block_count() {
        let h = heap.block_at(i);
        if !h.is_allocated {
            total += (h.size - HEADER_SIZE) as u128;
        }
    }
    total
}

#[test]
fn seeding_accounts_for_every_usable_region() {
    let map = map_of(&[
        (EfiMemoryType::CONVENTIONAL_MEMORY, 0x100000, 16),
        (EfiMemoryType::LOADER_DATA, 0x200000, 32),
        (EfiMemoryType::CONVENTIONAL_MEMORY, 0x300000, 8),
        // One page only: too small once the header is paid for.
        (EfiMemoryType::CONVENTIONAL_MEMORY, 0x400000, 1),
        // Starts at address zero: loses its first page.
        (EfiMemoryType::CONVENTIONAL_MEMORY, 0, 4),
    ]);
    let mut heap = FirstFitAllocator::new();
    heap.init_with_mmap(&map);
    let expected: u128 = (16 * 4096 - 32) + (8 * 4096 - 32) + (3 * 4096 - 32);
    assert_eq!(free_payload(&heap), expected);
}

#[test]
fn seeded_regions_enter_in_reverse_order() {
    let map = map_of(&[
        (EfiMemoryType::CONVENTIONAL_MEMORY, 0x100000, 16),
        (EfiMemoryType::CONVENTIONAL_MEMORY, 0x300000, 8),
    ]);
    let mut heap = FirstFitAllocator::new();
    heap.init_with_mmap(&map);
    assert_eq!(heap.block_count(), 2);
    let head = heap.head_index().expect("seeded heap has a head");
    assert_eq!(heap.block_at(head).addr, 0x300000);
    let second = heap.block_at(head).next.expect("two blocks are chained");
    assert_eq!(heap.block_at(second).addr, 0x100000);
    assert_eq!(heap.block_at(second).next, None);
}

#[test]
fn allocate_and_check_the_scenario_region() {
    let map = map_of(&[(EfiMemoryType::CONVENTIONAL_MEMORY, 0x100000, 16)]);
    let mut heap = FirstFitAllocator::new();
    heap.init_with_mmap(&map);

    let p = heap.alloc_with_options(64, 16).expect("a 64-byte allocation fits");
    assert!(p >= 0x100000);
    assert!(p < 0x110000);
    assert_eq!(p % 16, 0);

    assert_eq!(heap.alloc_with_options(1 << 20, 8), None);
}

#[test]
fn allocations_never_overlap() {
    let map = map_of(&[(EfiMemoryType::CONVENTIONAL_MEMORY, 0x100000, 16)]);
    let mut heap = FirstFitAllocator::new();
    heap.init_with_mmap(&map);

    let requests: [(usize, usize); 4] = [(100, 8), (64, 64), (1, 1), (500, 16)];
    let mut ranges: Vec<(usize, usize)> = Vec::new();
    for &(size, align) in requests.iter() {
        let p = heap.alloc_with_options(size, align).expect("the region is large enough");
        assert!(p != 0);
        assert_eq!(p % align, 0);
        let rounded = round_up_to_nearest_pow2(size).unwrap().max(HEADER_SIZE);
        ranges.push((p, p + rounded));
    }
    for i in 0..ranges.len() {
        for j in 0..ranges.len() {
            if i != j {
                let (s1, e1) = ranges[i];
                let (s2, e2) = ranges[j];
                assert!(e1 <= s2 || e2 <= s1, "ranges {:?} and {:?} overlap", ranges[i], ranges[j]);
            }
        }
    }
}

#[test]
fn allocate_after_free_succeeds_without_coalescing() {
    let map = map_of(&[(EfiMemoryType::CONVENTIONAL_MEMORY, 0x100000, 16)]);
    let mut heap = FirstFitAllocator::new();
    heap.init_with_mmap(&map);

    let before = free_payload(&heap);
    let p = heap.alloc_with_options(64, 16).expect("first allocation fits");
    heap.dealloc(p, 64, 16);
    assert_eq!(free_payload(&heap), before - HEADER_SIZE as u128);
    let q = heap.alloc_with_options(64, 16).expect("the request fits again after the free");
    assert!(q != 0);
    assert_eq!(q % 16, 0);
}

#[test]
fn exhaustion_returns_the_failure_sentinel() {
    let map = map_of(&[(EfiMemoryType::CONVENTIONAL_MEMORY, 0x100000, 16)]);
    let mut heap = FirstFitAllocator::new();
    heap.init_with_mmap(&map);

    let mut seen: Vec<usize> = Vec::new();
    let mut failed = false;
    for _ in 0..64 {
        match heap.alloc_with_options(4096, 4096) {
            Some(p) => {
                assert_eq!(p % 4096, 0);
                assert!(!seen.contains(&p), "address {p:#x} handed out twice");
                seen.push(p);
            }
            None => {
                failed = true;
                break;
            }
        }
    }
    assert!(failed, "a 64 KiB region cannot satisfy 64 page allocations");
    assert!(!seen.is_empty(), "at least one page allocation fits");
}

#[test]
fn rounding_failure_propagates_as_allocation_failure() {
    let map = map_of(&[(EfiMemoryType::CONVENTIONAL_MEMORY, 0x100000, 16)]);
    let mut heap = FirstFitAllocator::new();
    heap.init_with_mmap(&map);
    assert_eq!(heap.alloc_with_options(0, 8), None);
    assert_eq!(heap.alloc_with_options(usize::MAX, 8), None);
}

#[test]
fn an_empty_heap_refuses_everything() {
    let mut heap = FirstFitAllocator::new();
    assert_eq!(heap.alloc_with_options(1, 1), None);
    assert_eq!(heap.block_count(), 0);
    assert_eq!(heap.head_index(), None);
}

#[test]
fn freed_blocks_keep_their_place_in_the_chain() {
    let map = map_of(&[(EfiMemoryType::CONVENTIONAL_MEMORY, 0x100000, 16)]);
    let mut heap = FirstFitAllocator::new();
    heap.init_with_mmap(&map);
    let p = heap.alloc_with_options(128, 8).expect("fits");
    let blocks_after_alloc = heap.block_count();
    heap.dealloc(p, 128, 8);
    // Deallocation flips a flag: no block appears or disappears.
    assert_eq!(heap.block_count(), blocks_after_alloc);
    let mut found = false;
    for i in 0..heap.block_count() {
        let h = heap.block_at(i);
        assert!(!h.is_allocated);
        if h.addr + HEADER_SIZE == p {
            found = true;
            assert_eq!(h.size, 128 + HEADER_SIZE);
        }
    }
    assert!(found, "the freed block keeps its header");
}
