use basic_allocator::allocators::atomic_array::ARRAY_ORIGIN;
use basic_allocator::allocators::{AtomicArray, HeapGrower, Layout, RawAlloc, ToyHeap};

fn layout(size: usize, align: usize) -> Layout {
    Layout::from_size_align(size, align).unwrap()
}

fn free_blocks(allocator: &RawAlloc<ToyHeap>) -> Vec<(usize, usize)> {
    let mut out = Vec::new();
    let mut iter = allocator.blocks.iter();
    while let Some(block) = iter.next() {
        out.push((block.base, block.size()));
    }
    out
}

fn free_bytes(allocator: &RawAlloc<ToyHeap>) -> usize {
    let (_, stats) = allocator.stats();
    stats.get_stats().1
}

fn free_count(allocator: &RawAlloc<ToyHeap>) -> usize {
    let (_, stats) = allocator.stats();
    stats.get_stats().0
}

fn assert_clean(allocator: &RawAlloc<ToyHeap>) {
    let (validity, _) = allocator.stats();
    assert!(validity.is_valid());
    assert_eq!(validity.overlaps, 0);
    assert_eq!(validity.adjacents, 0);
    assert_eq!(validity.out_of_orders, 0);
}

fn in_free_block(allocator: &RawAlloc<ToyHeap>, ptr: usize) -> bool {
    free_blocks(allocator)
        .iter()
        .any(|&(base, size)| base <= ptr && ptr < base + size)
}

#[test]
fn new_allocator_is_empty() {
    let allocator = RawAlloc::new(ToyHeap::default());
    assert!(free_blocks(&allocator).is_empty());
    assert_eq!(allocator.allocation_count(), 0);
    assert_eq!(allocator.deallocation_count(), 0);
    assert_eq!(allocator.grower.size, 0);
    assert_clean(&allocator);
    let allocator: RawAlloc<ToyHeap> = RawAlloc::default();
    assert!(free_blocks(&allocator).is_empty());
    assert_eq!(allocator.grower.page_size, 64);
}

#[test]
fn block_size_rounds_the_larger_of_size_and_align() {
    assert_eq!(RawAlloc::<ToyHeap>::block_size(layout(64, 16)), 64);
    assert_eq!(RawAlloc::<ToyHeap>::block_size(layout(224, 16)), 224);
    assert_eq!(RawAlloc::<ToyHeap>::block_size(layout(1, 1)), 16);
    assert_eq!(RawAlloc::<ToyHeap>::block_size(layout(0, 1)), 16);
    assert_eq!(RawAlloc::<ToyHeap>::block_size(layout(0, 8)), 16);
    assert_eq!(RawAlloc::<ToyHeap>::block_size(layout(16, 8)), 16);
    assert_eq!(RawAlloc::<ToyHeap>::block_size(layout(17, 8)), 32);
    assert_eq!(RawAlloc::<ToyHeap>::block_size(layout(4096, 8)), 4096);
    assert_eq!(RawAlloc::<ToyHeap>::block_size(layout(8, 64)), 64);
    assert_eq!(RawAlloc::<ToyHeap>::block_size(layout(100, 64)), 112);
}

#[test]
fn consecutive_allocations_from_the_toy_heap() {
    let mut allocator = RawAlloc::new(ToyHeap::default());
    let first = allocator.allocate(layout(64, 16));
    assert_clean(&allocator);
    let second = allocator.allocate(layout(64, 16));
    assert_clean(&allocator);
    let third = allocator.allocate(layout(224, 16));
    assert_clean(&allocator);
    assert_eq!(first, ARRAY_ORIGIN);
    assert_eq!(second, first + 64);
    assert_eq!(third, first + 128);
    assert_eq!(allocator.grower.size, 384);
    assert_eq!(free_blocks(&allocator), vec![(third + 224, 32)]);
    assert_eq!(allocator.allocation_count(), 3);
    assert_eq!(allocator.deallocation_count(), 0);
}

#[test]
fn allocation_is_served_from_the_free_list_first() {
    let mut allocator = RawAlloc::new(ToyHeap::default());
    let first = allocator.allocate(layout(16, 16));
    assert_eq!(first, ARRAY_ORIGIN);
    assert_eq!(free_blocks(&allocator), vec![(first + 16, 48)]);
    // split from the upper end of the free block
    let second = allocator.allocate(layout(16, 16));
    assert_eq!(second, first + 48);
    assert_eq!(free_blocks(&allocator), vec![(first + 16, 32)]);
    assert_eq!(allocator.grower.size, 64);
    // exact fit
    let third = allocator.allocate(layout(32, 16));
    assert_eq!(third, first + 16);
    assert!(free_blocks(&allocator).is_empty());
    assert_eq!(allocator.grower.size, 64);
    assert_eq!(allocator.allocation_count(), 3);
}

#[test]
fn shrink_release() {
    let mut allocator = RawAlloc::new(ToyHeap::default());
    let old = layout(4096, 8);
    let ptr = allocator.allocate(old);
    assert_ne!(ptr, 0);
    let free_before = free_bytes(&allocator);
    let count_before = free_count(&allocator);
    let shrunk = allocator.realloc(ptr, old, 1024);
    assert_eq!(shrunk, ptr);
    assert_eq!(free_bytes(&allocator), free_before + 3072);
    assert_eq!(free_count(&allocator), count_before + 1);
    assert_eq!(free_blocks(&allocator), vec![(ptr + 1024, 3072)]);
    assert_clean(&allocator);
    assert_eq!(allocator.allocation_count(), 1);
    assert_eq!(allocator.deallocation_count(), 0);
}

#[test]
fn realloc_to_the_same_block_size_changes_nothing() {
    let mut allocator = RawAlloc::new(ToyHeap::default());
    let old = layout(100, 8);
    let ptr = allocator.allocate(old);
    let before = free_blocks(&allocator);
    assert_eq!(allocator.realloc(ptr, old, 112), ptr);
    assert_eq!(allocator.realloc(ptr, old, 97), ptr);
    assert_eq!(free_blocks(&allocator), before);
}

#[test]
fn in_place_grow_fails_when_the_next_block_is_too_small() {
    let mut allocator = RawAlloc::new(ToyHeap::default());
    let first_layout = layout(256, 16);
    let second_layout = layout(16, 16);
    let first = allocator.allocate(first_layout);
    let second = allocator.allocate(second_layout);
    assert_eq!(second, first + 256);
    allocator.dealloc(second, second_layout);
    assert_eq!(free_blocks(&allocator), vec![(first + 256, 64)]);
    let moved = allocator.realloc(first, first_layout, 4096);
    assert_ne!(moved, 0);
    assert_ne!(moved, first);
    assert_eq!(moved, first + 320);
    // the old region is free again, merged with the block behind it
    assert_eq!(free_blocks(&allocator), vec![(first, 320)]);
    assert!(in_free_block(&allocator, first));
    assert_clean(&allocator);
    assert_eq!(allocator.allocation_count(), 3);
    assert_eq!(allocator.deallocation_count(), 2);
}

#[test]
fn in_place_grow_splits_the_next_block() {
    let mut allocator = RawAlloc::new(ToyHeap::default());
    let first_layout = layout(64, 16);
    let second_layout = layout(128, 16);
    let first = allocator.allocate(first_layout);
    let second = allocator.allocate(second_layout);
    assert_eq!(second, first + 64);
    allocator.dealloc(second, second_layout);
    let grown = allocator.realloc(first, first_layout, 128);
    assert_eq!(grown, first);
    assert_eq!(free_blocks(&allocator), vec![(first + 128, 64)]);
    assert_eq!(allocator.grower.size, 192);
    assert_eq!(allocator.allocation_count(), 2);
    assert_eq!(allocator.deallocation_count(), 1);
    assert_clean(&allocator);
}

#[test]
fn in_place_grow_takes_the_whole_next_block() {
    let mut allocator = RawAlloc::new(ToyHeap::default());
    let first_layout = layout(64, 16);
    let second_layout = layout(128, 16);
    let first = allocator.allocate(first_layout);
    let second = allocator.allocate(second_layout);
    allocator.dealloc(second, second_layout);
    let grown = allocator.realloc(first, first_layout, 192);
    assert_eq!(grown, first);
    assert!(free_blocks(&allocator).is_empty());
    assert_eq!(allocator.grower.size, 192);
}

#[test]
fn realloc_of_null_allocates() {
    let mut allocator = RawAlloc::new(ToyHeap::default());
    let ptr = allocator.realloc(0, layout(0, 16), 100);
    assert_eq!(ptr, ARRAY_ORIGIN);
    assert_eq!(allocator.grower.size, 128);
    assert_eq!(free_blocks(&allocator), vec![(ptr + 112, 16)]);
    assert_eq!(allocator.allocation_count(), 1);
}

#[test]
fn realloc_to_a_size_that_makes_no_layout_fails() {
    let mut allocator = RawAlloc::new(ToyHeap::default());
    let old = layout(64, 16);
    let ptr = allocator.allocate(old);
    assert_eq!(allocator.realloc(ptr, old, usize::MAX), 0);
    assert_eq!(allocator.realloc(0, old, usize::MAX), 0);
    assert!(free_blocks(&allocator).is_empty());
    assert_eq!(allocator.allocation_count(), 1);
    assert_eq!(allocator.deallocation_count(), 0);
    // the old allocation can still be released
    allocator.dealloc(ptr, old);
    assert_eq!(free_blocks(&allocator), vec![(ptr, 64)]);
}

#[test]
fn realloc_that_moves_copies_the_bytes() {
    let mut allocator = RawAlloc::new(ToyHeap::default());
    let old = layout(64, 16);
    let ptr = allocator.allocate(old);
    let blocker = allocator.allocate(layout(64, 16));
    assert_eq!(blocker, ptr + 64);
    for i in 0..64 {
        allocator.grower.heap.store(ptr - ARRAY_ORIGIN + i, (i + 1) as u8);
    }
    let moved = allocator.realloc(ptr, old, 256);
    assert_eq!(moved, ptr + 128);
    for i in 0..64 {
        assert_eq!(allocator.grower.heap.load(moved - ARRAY_ORIGIN + i), (i + 1) as u8);
    }
    assert_eq!(free_blocks(&allocator), vec![(ptr, 64)]);
}

#[test]
fn realloc_that_cannot_allocate_keeps_the_old_block() {
    let mut heap = ToyHeap::default();
    heap.heap = AtomicArray::new(128);
    let mut allocator = RawAlloc::new(heap);
    let old = layout(64, 16);
    let ptr = allocator.allocate(old);
    assert_eq!(ptr, ARRAY_ORIGIN);
    assert_eq!(allocator.realloc(ptr, old, 256), 0);
    assert!(free_blocks(&allocator).is_empty());
    assert_eq!(allocator.allocation_count(), 1);
    assert_eq!(allocator.deallocation_count(), 0);
    assert_eq!(allocator.grower.size, 64);
}

#[test]
fn out_of_memory() {
    let mut allocator = RawAlloc::new(ToyHeap::default());
    let request = layout(1024, 16);
    let mut pointers = Vec::new();
    loop {
        let ptr = allocator.allocate(request);
        if ptr == 0 {
            break;
        }
        pointers.push(ptr);
    }
    assert_eq!(pointers.len(), 256);
    assert_eq!(allocator.grower.size, 256 * 1024);
    assert_eq!(allocator.allocation_count(), 256);
    assert_eq!(allocator.allocate(request), 0);
    assert_eq!(allocator.allocation_count(), 256);
    let released = pointers[17];
    allocator.dealloc(released, request);
    let again = allocator.allocate(request);
    assert_eq!(again, released);
    assert_eq!(allocator.allocate(request), 0);
    assert_clean(&allocator);
}

#[test]
fn zeroing() {
    let mut allocator = RawAlloc::new(ToyHeap::default());
    let request = layout(4096, 8);
    let ptr = allocator.allocate(request);
    for i in 0..4096 {
        allocator.grower.heap.store(ptr - ARRAY_ORIGIN + i, 0xAB);
    }
    allocator.dealloc(ptr, request);
    let zeroed = allocator.calloc(request);
    assert_eq!(zeroed, ptr);
    for i in 0..4096 {
        assert_eq!(allocator.grower.heap.load(zeroed - ARRAY_ORIGIN + i), 0);
    }
}

#[test]
fn calloc_zeroes_only_the_bytes_of_the_request() {
    let mut allocator = RawAlloc::new(ToyHeap::default());
    let dirty = layout(64, 16);
    let ptr = allocator.allocate(dirty);
    for i in 0..64 {
        allocator.grower.heap.store(ptr - ARRAY_ORIGIN + i, 0xCD);
    }
    allocator.dealloc(ptr, dirty);
    let zeroed = allocator.calloc(layout(40, 8));
    // the upper 48 bytes of the free block serve the request
    assert_eq!(zeroed, ptr + 16);
    for i in 0..40 {
        assert_eq!(allocator.grower.heap.load(zeroed - ARRAY_ORIGIN + i), 0);
    }
    for i in 40..48 {
        assert_eq!(allocator.grower.heap.load(zeroed - ARRAY_ORIGIN + i), 0xCD);
    }
    assert_eq!(allocator.grower.heap.load(ptr - ARRAY_ORIGIN), 0xCD);
}

#[test]
fn calloc_fails_as_allocate_does() {
    let mut heap = ToyHeap::default();
    heap.heap = AtomicArray::new(64);
    let mut allocator = RawAlloc::new(heap);
    assert_eq!(allocator.calloc(layout(128, 16)), 0);
    assert_eq!(allocator.allocation_count(), 0);
    assert_eq!(allocator.calloc(layout(64, 16)), ARRAY_ORIGIN);
}

#[test]
fn dealloc_then_allocate_returns_the_same_pointer() {
    let mut allocator = RawAlloc::new(ToyHeap::default());
    let request = layout(128, 16);
    let first = allocator.allocate(request);
    let second = allocator.allocate(request);
    let third = allocator.allocate(request);
    assert_eq!((second, third), (first + 128, first + 256));
    allocator.dealloc(second, request);
    assert_eq!(allocator.allocate(request), second);
    allocator.dealloc(first, request);
    assert_eq!(allocator.allocate(request), first);
    assert_eq!(allocator.deallocation_count(), 2);
    assert_eq!(allocator.allocation_count(), 5);
}

#[test]
fn allocate_then_dealloc_keeps_the_free_bytes() {
    let mut allocator = RawAlloc::new(ToyHeap::default());
    let big = layout(1024, 16);
    let ptr = allocator.allocate(big);
    allocator.dealloc(ptr, big);
    let before = free_blocks(&allocator);
    let total = free_bytes(&allocator);
    let request = layout(100, 4);
    let ptr = allocator.allocate(request);
    assert_eq!(free_bytes(&allocator), total - 112);
    allocator.dealloc(ptr, request);
    assert_eq!(free_bytes(&allocator), total);
    assert_eq!(free_blocks(&allocator), before);
}

#[test]
fn live_and_free_bytes_are_the_bytes_obtained() {
    let mut allocator = RawAlloc::new(ToyHeap::default());
    let requests = [
        layout(24, 8),
        layout(100, 4),
        layout(64, 16),
        layout(1000, 2),
        layout(1, 1),
        layout(4096, 8),
    ];
    let mut live: Vec<(usize, Layout)> = Vec::new();
    let mut live_bytes = 0;
    for &request in requests.iter() {
        let ptr = allocator.allocate(request);
        assert_ne!(ptr, 0);
        live.push((ptr, request));
        live_bytes += RawAlloc::<ToyHeap>::block_size(request);
        assert_eq!(live_bytes + free_bytes(&allocator), allocator.grower.size);
        assert_clean(&allocator);
    }
    for &index in [3usize, 0, 4, 1, 5, 2].iter() {
        let (ptr, request) = live[index];
        allocator.dealloc(ptr, request);
        live_bytes -= RawAlloc::<ToyHeap>::block_size(request);
        assert_eq!(live_bytes + free_bytes(&allocator), allocator.grower.size);
        assert_clean(&allocator);
    }
    assert_eq!(live_bytes, 0);
    assert_eq!(free_bytes(&allocator), allocator.grower.size);
}

#[test]
fn live_allocations_are_aligned_and_not_free() {
    let mut allocator = RawAlloc::new(ToyHeap::default());
    let requests = [
        layout(3, 1),
        layout(10, 2),
        layout(7, 4),
        layout(24, 8),
        layout(100, 16),
        layout(16, 16),
        layout(5, 1),
    ];
    let mut live: Vec<(usize, Layout)> = Vec::new();
    for (i, &request) in requests.iter().enumerate() {
        let ptr = allocator.allocate(request);
        live.push((ptr, request));
        if i == 2 {
            let (first, first_layout) = live.remove(0);
            allocator.dealloc(first, first_layout);
        }
        for &(ptr, request) in live.iter() {
            assert_ne!(ptr, 0);
            assert_eq!(ptr % 16, 0);
            assert_eq!(ptr % request.align(), 0);
            assert!(!in_free_block(&allocator, ptr));
            assert!(ptr >= ARRAY_ORIGIN);
            assert!(ptr + request.size() <= ARRAY_ORIGIN + allocator.grower.size);
        }
    }
}

#[test]
fn three_blocks_from_one_growth_coalesce_in_every_order() {
    let orders = [[0usize, 1, 2], [0, 2, 1], [1, 0, 2], [1, 2, 0], [2, 0, 1], [2, 1, 0]];
    for order in orders.iter() {
        let mut allocator = RawAlloc::new(ToyHeap::default());
        let whole = layout(384, 16);
        let ptr = allocator.allocate(whole);
        allocator.dealloc(ptr, whole);
        let layouts = [layout(64, 16), layout(128, 16), layout(192, 16)];
        let c = allocator.allocate(layouts[2]);
        let b = allocator.allocate(layouts[1]);
        let a = allocator.allocate(layouts[0]);
        assert_eq!((a, b, c), (ptr, ptr + 64, ptr + 192));
        assert!(free_blocks(&allocator).is_empty());
        let pointers = [a, b, c];
        for &i in order.iter() {
            allocator.dealloc(pointers[i], layouts[i]);
            assert_clean(&allocator);
        }
        assert_eq!(free_blocks(&allocator), vec![(ptr, 384)]);
        assert_eq!(allocator.grower.size, 384);
    }
}

#[test]
fn freeing_the_middle_last_merges_three_ways() {
    let mut allocator = RawAlloc::new(ToyHeap::default());
    let request = layout(64, 16);
    let a = allocator.allocate(request);
    let b = allocator.allocate(request);
    let c = allocator.allocate(request);
    allocator.dealloc(a, request);
    allocator.dealloc(c, request);
    assert_eq!(free_blocks(&allocator), vec![(a, 64), (c, 64)]);
    assert_eq!(free_count(&allocator), 2);
    allocator.dealloc(b, request);
    assert_eq!(free_blocks(&allocator), vec![(a, 192)]);
    assert_eq!(free_count(&allocator), 1);
}

#[test]
fn three_blocks_with_gaps_coalesce_into_the_whole_growth() {
    let mut allocator = RawAlloc::new(ToyHeap::default());
    let whole = layout(12288, 16);
    let base = allocator.allocate(whole);
    assert_eq!(allocator.grower.size, 12288);
    allocator.dealloc(base, whole);
    let block = layout(2048, 16);
    let gap = layout(1024, 16);
    let a = allocator.allocate(block);
    let upper_gap = allocator.allocate(gap);
    let b = allocator.allocate(block);
    let lower_gap = allocator.allocate(gap);
    let c = allocator.allocate(block);
    assert_eq!(a, base + 10240);
    assert_eq!(b, base + 7168);
    assert_eq!(c, base + 4096);
    allocator.dealloc(upper_gap, gap);
    allocator.dealloc(lower_gap, gap);
    assert_eq!(free_count(&allocator), 3);
    allocator.dealloc(c, block);
    allocator.dealloc(b, block);
    allocator.dealloc(a, block);
    assert_eq!(free_blocks(&allocator), vec![(base, 12288)]);
    assert_eq!(allocator.grower.size, 12288);
    assert_clean(&allocator);
}

#[test]
fn adopt_region_splits_off_the_surplus() {
    let mut allocator = RawAlloc::new(ToyHeap::default());
    let (base, got) = allocator.grower.grow_heap(256).unwrap();
    assert_eq!((base, got), (ARRAY_ORIGIN, 256));
    assert_eq!(allocator.adopt_region(64, base, got), base);
    assert_eq!(free_blocks(&allocator), vec![(base + 64, 192)]);
    assert_eq!(allocator.allocation_count(), 1);
    let (base, got) = allocator.grower.grow_heap(64).unwrap();
    assert_eq!(allocator.adopt_region(64, base, got), ARRAY_ORIGIN + 256);
    assert_eq!(free_blocks(&allocator), vec![(ARRAY_ORIGIN + 64, 192)]);
    assert_eq!(allocator.allocation_count(), 2);
}
