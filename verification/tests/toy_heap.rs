use basic_allocator::allocators::{round_up, Layout, RawAlloc, ToyHeap};

#[test]
fn test_basic() {
    let toy_heap = ToyHeap::default();
    let mut allocator = RawAlloc::new(toy_heap);

    const BLOCKS: usize = 3;
    let layouts: [Layout; BLOCKS] = [
        Layout::from_size_align(64, 16).unwrap(),
        Layout::from_size_align(64, 16).unwrap(),
        Layout::from_size_align(224, 16).unwrap(),
    ];

    let mut pointers = [0usize; BLOCKS];
    for (i, &l) in layouts.iter().enumerate() {
        pointers[i] = allocator.allocate(l);
        let (validity, _stats) = allocator.stats();
        assert!(validity.is_valid());
    }

    for i in 0..BLOCKS - 1 {
        let l = layouts[i];
        let expected = pointers[i] + l.size();
        let found = pointers[i + 1];
        assert_eq!(expected, found);
    }

    let toy_heap = &allocator.grower;
    let page_size = toy_heap.page_size;
    let total_allocated: usize = layouts.iter().map(|l| l.size()).sum();
    let page_space = round_up(total_allocated, page_size);
    assert_eq!(toy_heap.size, page_space);
}
