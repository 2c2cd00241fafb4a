use basic_allocator::allocators::atomic_array::ARRAY_ORIGIN;
use basic_allocator::allocators::generic_allocator::{
    next_backoff, INITIALIZING, MAX_BACKOFF, READY, UNINIT,
};
use basic_allocator::allocators::heap_grower::DEFAULT_PAGE_SIZE;
use basic_allocator::allocators::layout::power_of_two;
use basic_allocator::allocators::{
    round_up, AtomicArray, EnhancedHeapGrower, GenericAllocator, HeapGrower, Layout, ToyHeap,
};

#[test]
fn round_up_to_multiples() {
    assert_eq!(round_up(352, 64), 384);
    assert_eq!(round_up(0, 64), 0);
    assert_eq!(round_up(1, 64), 64);
    assert_eq!(round_up(64, 64), 64);
    assert_eq!(round_up(65, 64), 128);
    assert_eq!(round_up(10, 3), 12);
    assert_eq!(round_up(7, 1), 7);
}

#[test]
fn layout_of_size_and_align() {
    let layout = Layout::from_size_align(224, 16).unwrap();
    assert_eq!(layout.size(), 224);
    assert_eq!(layout.align(), 16);
    let layout = Layout::from_size_align(0, 1).unwrap();
    assert_eq!((layout.size(), layout.align()), (0, 1));
    let largest = isize::MAX as usize - 7;
    assert_eq!(Layout::from_size_align(largest, 8).unwrap().size(), largest);
    assert_eq!(layout, Layout::from_size_align(0, 1).unwrap());
}

#[test]
fn layout_refuses_an_alignment_that_is_no_power_of_two() {
    assert!(Layout::from_size_align(64, 0).is_err());
    assert!(Layout::from_size_align(64, 3).is_err());
    assert!(Layout::from_size_align(64, 24).is_err());
    assert!(Layout::from_size_align(0, usize::MAX).is_err());
}

#[test]
fn layout_refuses_a_size_that_does_not_fit() {
    assert!(Layout::from_size_align(usize::MAX, 1).is_err());
    assert!(Layout::from_size_align(isize::MAX as usize + 1, 1).is_err());
    assert!(Layout::from_size_align(isize::MAX as usize - 6, 8).is_err());
    assert!(Layout::from_size_align(isize::MAX as usize, 1).is_ok());
}

#[test]
fn powers_of_two() {
    for n in [1usize, 2, 4, 8, 16, 4096, 1 << 40].iter() {
        assert!(power_of_two(*n));
    }
    for n in [0usize, 3, 6, 12, 24, 100, usize::MAX].iter() {
        assert!(!power_of_two(*n));
    }
}

#[test]
fn atomic_array_starts_zeroed() {
    let array = AtomicArray::new(8);
    assert_eq!(array.len(), 8);
    for i in 0..8 {
        assert_eq!(array.load(i), 0);
    }
    assert_eq!(array.as_ptr(), ARRAY_ORIGIN);
    assert_eq!(AtomicArray::default().len(), 0);
    assert_eq!(AtomicArray::new(0).len(), 0);
}

#[test]
fn atomic_array_store_and_load() {
    let mut array = AtomicArray::new(4);
    array.store(2, 77);
    assert_eq!(array.load(2), 77);
    assert_eq!(array.load(1), 0);
    assert_eq!(array.load(3), 0);
    array.store(2, 5);
    assert_eq!(array.load(2), 5);
}

#[test]
fn atomic_array_fetch_add_wraps() {
    let mut array = AtomicArray::new(2);
    assert_eq!(array.fetch_add(0, 250), 0);
    assert_eq!(array.fetch_add(0, 5), 250);
    assert_eq!(array.load(0), 255);
    assert_eq!(array.fetch_add(0, 10), 255);
    assert_eq!(array.load(0), 9);
    assert_eq!(array.fetch_add(0, 0), 9);
    assert_eq!(array.fetch_add(1, 255), 0);
    assert_eq!(array.fetch_add(1, 255), 255);
    assert_eq!(array.load(1), 254);
}

#[test]
fn toy_heap_default() {
    let heap = ToyHeap::default();
    assert_eq!(heap.page_size, 64);
    assert_eq!(heap.size, 0);
    assert_eq!(heap.heap.len(), 256 * 1024);
}

#[test]
fn toy_heap_grows_by_whole_pages() {
    let mut heap = ToyHeap::default();
    assert_eq!(heap.grow_heap(1).unwrap(), (ARRAY_ORIGIN, 64));
    assert_eq!(heap.grow_heap(64).unwrap(), (ARRAY_ORIGIN + 64, 64));
    assert_eq!(heap.grow_heap(65).unwrap(), (ARRAY_ORIGIN + 128, 128));
    assert_eq!(heap.size, 256);
    assert_eq!(heap.grow_heap(0).unwrap(), (ARRAY_ORIGIN + 256, 0));
    assert_eq!(heap.size, 256);
}

#[test]
fn toy_heap_overflows() {
    let mut heap = ToyHeap::default();
    assert!(heap.grow_heap(256 * 1024 + 1).is_err());
    assert_eq!(heap.size, 0);
    assert!(heap.grow_heap(usize::MAX).is_err());
    assert!(heap.grow_heap(usize::MAX - 62).is_err());
    assert_eq!(heap.grow_heap(256 * 1024).unwrap(), (ARRAY_ORIGIN, 256 * 1024));
    assert!(heap.grow_heap(1).is_err());
    assert_eq!(heap.size, 256 * 1024);
    assert_eq!(heap.grow_heap(0).unwrap(), (ARRAY_ORIGIN + 256 * 1024, 0));
}

#[test]
fn toy_heap_zeroes_and_copies_bytes() {
    let mut heap = ToyHeap::default();
    let (base, _) = heap.grow_heap(128).unwrap();
    for i in 0..64 {
        heap.heap.store(i, (i + 1) as u8);
    }
    heap.copy_bytes(base, base + 64, 32);
    for i in 0..32 {
        assert_eq!(heap.heap.load(64 + i), (i + 1) as u8);
        assert_eq!(heap.heap.load(i), (i + 1) as u8);
    }
    for i in 96..128 {
        assert_eq!(heap.heap.load(i), 0);
    }
    heap.zero_bytes(base + 8, 16);
    for i in 0..64 {
        let expected = if (8..24).contains(&i) { 0 } else { (i + 1) as u8 };
        assert_eq!(heap.heap.load(i), expected);
    }
    heap.zero_bytes(base, 0);
    heap.copy_bytes(base, base + 64, 0);
    assert_eq!(heap.heap.load(0), 1);
    // copying downwards
    heap.copy_bytes(base + 64, base, 4);
    assert_eq!(heap.heap.load(3), 4);
}

#[test]
fn os_grower_rounds_with_a_mask() {
    assert_eq!(EnhancedHeapGrower::round_up(5, 8), 8);
    assert_eq!(EnhancedHeapGrower::round_up(8, 8), 8);
    assert_eq!(EnhancedHeapGrower::round_up(0, 4096), 0);
    assert_eq!(EnhancedHeapGrower::round_up(1, 4096), 4096);
    assert_eq!(EnhancedHeapGrower::round_up(4097, 4096), 8192);
    assert_eq!(EnhancedHeapGrower::round_up(77, 1), 77);
    assert_eq!(EnhancedHeapGrower::get_page_size(), 4096);
    assert_eq!(DEFAULT_PAGE_SIZE, 4096);
}

#[test]
fn os_grower_plans_whole_pages() {
    let mut grower = EnhancedHeapGrower::default();
    assert_eq!(grower.allocation_attempts(), 0);
    assert_eq!(grower.plan_growth(0), Some(0));
    assert_eq!(grower.plan_growth(1), Some(4096));
    assert_eq!(grower.plan_growth(8), Some(4096));
    assert_eq!(grower.plan_growth(4096), Some(4096));
    assert_eq!(grower.plan_growth(4097), Some(8192));
    assert_eq!(grower.plan_growth(usize::MAX), None);
    assert_eq!(grower.plan_growth(usize::MAX - 4094), None);
    assert_eq!(grower.plan_growth(usize::MAX - 4095), Some(usize::MAX - 4095));
    assert_eq!(grower.allocation_attempts(), 8);
    assert_eq!(grower.total_allocated(), 0);
    assert_eq!(grower.peak_allocation(), 0);
}

#[test]
fn os_grower_books_what_was_mapped() {
    let mut grower = EnhancedHeapGrower::default();
    assert_eq!(grower.record_growth(0x7000_0000, 8192), (0x7000_0000, 8192));
    assert_eq!(grower.total_allocated(), 8192);
    assert_eq!(grower.peak_allocation(), 8192);
    assert_eq!(grower.pages, 2);
    assert_eq!(grower.growths, 1);
    assert_eq!(grower.base, 0x7000_0000);
    assert_eq!(grower.record_growth(0x7100_0000, 4096), (0x7100_0000, 4096));
    assert_eq!(grower.total_allocated(), 12288);
    assert_eq!(grower.peak_allocation(), 12288);
    assert_eq!(grower.pages, 3);
    assert_eq!(grower.growths, 2);
    assert_eq!(grower.allocation_attempts(), 0);
}

#[test]
fn os_grower_counters_wrap() {
    let mut grower = EnhancedHeapGrower::default();
    grower.total_allocated = usize::MAX - 4095;
    grower.peak_allocation = usize::MAX - 4095;
    grower.allocation_attempts = usize::MAX;
    grower.pages = usize::MAX;
    grower.growths = usize::MAX;
    grower.record_growth(4096, 8192);
    assert_eq!(grower.total_allocated(), 4096);
    assert_eq!(grower.peak_allocation(), usize::MAX - 4095);
    assert_eq!(grower.pages, 1);
    assert_eq!(grower.growths, 0);
    assert_eq!(grower.plan_growth(1), Some(4096));
    assert_eq!(grower.allocation_attempts(), 0);
}

#[test]
fn backoff_doubles_up_to_the_cap() {
    assert_eq!(next_backoff(4), 8);
    assert_eq!(next_backoff(8), 16);
    assert_eq!(next_backoff(32), 64);
    assert_eq!(next_backoff(33), 64);
    assert_eq!(next_backoff(64), 64);
    assert_eq!(next_backoff(0), 0);
    assert_eq!(next_backoff(usize::MAX), 64);
    assert_eq!(MAX_BACKOFF, 64);
    assert_eq!((UNINIT, INITIALIZING, READY), (0, 1, 2));
}

#[test]
fn generic_allocator_is_made_on_first_use() {
    let mut allocator: GenericAllocator<ToyHeap> = GenericAllocator::new();
    assert_eq!(allocator.init, UNINIT);
    assert!(allocator.raw.is_none());
    let (validity, stats) = allocator.stats();
    assert!(validity.is_valid());
    assert_eq!(stats.get_stats(), (0, 0));
    assert_eq!(allocator.init, READY);
    assert!(allocator.raw.is_some());
}

#[test]
fn generic_allocator_keeps_its_raw_allocator() {
    let mut allocator: GenericAllocator<ToyHeap> = GenericAllocator::default();
    let request = Layout::from_size_align(100, 8).unwrap();
    let ptr = {
        let mut guard = allocator.get_raw();
        let ptr = guard.allocate(request);
        assert_eq!(ptr, ARRAY_ORIGIN);
        let (validity, stats) = guard.stats();
        assert!(validity.is_valid());
        assert_eq!(stats.get_stats(), (1, 16));
        ptr
    };
    assert_eq!(allocator.init, READY);
    {
        let mut guard = allocator.get_raw();
        let zeroed = guard.calloc(Layout::from_size_align(16, 16).unwrap());
        assert_eq!(zeroed, ptr + 112);
        let grown = guard.realloc(ptr, request, 120);
        assert_eq!(grown, ptr + 128);
        guard.dealloc(grown, Layout::from_size_align(120, 8).unwrap());
    }
    let (validity, stats) = allocator.stats();
    assert!(validity.is_valid());
    assert_eq!(stats.get_stats(), (2, 240));
    let raw = allocator.raw.as_ref().unwrap();
    assert_eq!(raw.allocation_count(), 3);
    assert_eq!(raw.deallocation_count(), 2);
    assert_eq!(raw.grower.size, 256);
}
