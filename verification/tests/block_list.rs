use basic_allocator::blocklist::{header_size, ApplyState, BlockList, FreeBlock, FreeHeader};
use basic_allocator::relation::Relation;

const BASE: usize = 0x1_0000;

fn ranges(list: &BlockList) -> Vec<(usize, usize)> {
    let mut out = Vec::new();
    let mut iter = list.iter();
    while let Some(block) = iter.next() {
        out.push((block.base, block.size()));
    }
    out
}

fn block(base: usize, size: usize) -> FreeBlock {
    FreeBlock::from_raw(base, None, size)
}

#[test]
fn header_size_is_sixteen() {
    assert_eq!(header_size(), 16);
    assert_eq!(BlockList::header_size(), 16);
}

#[test]
fn header_holds_size_and_link() {
    let mut header = FreeHeader::from_raw(None, 48);
    assert_eq!(header.get_size(), 48);
    assert!(header.next.is_none());
    header.set_size(32);
    assert_eq!(header.get_size(), 32);
}

#[test]
fn empty_list_is_empty() {
    let list = BlockList::default();
    assert!(list.is_empty());
    assert_eq!(list.len(), 0);
    assert_eq!(list.get_total_memory(), 0);
    let (validity, stats) = list.stats();
    assert!(validity.is_valid());
    assert_eq!(stats.get_stats(), (0, 0));
    assert!(list.iter().next().is_none());
}

#[test]
fn add_block_keeps_address_order() {
    let mut list = BlockList::default();
    list.add_block(BASE + 512, 64);
    list.add_block(BASE, 64);
    list.add_block(BASE + 256, 64);
    list.add_block(BASE + 1024, 32);
    assert_eq!(
        ranges(&list),
        vec![(BASE, 64), (BASE + 256, 64), (BASE + 512, 64), (BASE + 1024, 32)]
    );
    assert_eq!(list.len(), 4);
    assert!(!list.is_empty());
    assert_eq!(list.get_total_memory(), 224);
    let (validity, stats) = list.stats();
    assert!(validity.is_valid());
    assert_eq!(stats.get_stats(), (4, 224));
}

#[test]
fn add_block_merges_with_predecessor() {
    let mut list = BlockList::default();
    list.add_block(BASE, 64);
    list.add_block(BASE + 64, 32);
    assert_eq!(ranges(&list), vec![(BASE, 96)]);
    assert_eq!(list.len(), 1);
}

#[test]
fn add_block_merges_with_successor() {
    let mut list = BlockList::default();
    list.add_block(BASE + 64, 32);
    list.add_block(BASE, 64);
    assert_eq!(ranges(&list), vec![(BASE, 96)]);
    assert_eq!(list.len(), 1);
}

#[test]
fn add_block_merges_successor_behind_first() {
    let mut list = BlockList::default();
    list.add_block(BASE, 16);
    list.add_block(BASE + 128, 32);
    list.add_block(BASE + 96, 32);
    assert_eq!(ranges(&list), vec![(BASE, 16), (BASE + 96, 64)]);
    assert_eq!(list.len(), 2);
}

#[test]
fn add_block_fills_the_middle() {
    let mut list = BlockList::default();
    list.add_block(BASE, 64);
    list.add_block(BASE + 128, 64);
    assert_eq!(ranges(&list), vec![(BASE, 64), (BASE + 128, 64)]);
    assert_eq!(list.len(), 2);
    list.add_block(BASE + 64, 64);
    assert_eq!(ranges(&list), vec![(BASE, 192)]);
    assert_eq!(list.len(), 1);
    let (validity, stats) = list.stats();
    assert!(validity.is_valid());
    assert_eq!(stats.get_stats(), (1, 192));
}

#[test]
fn add_block_fills_a_gap_deep_in_the_list() {
    let mut list = BlockList::default();
    list.add_block(BASE, 16);
    list.add_block(BASE + 64, 16);
    list.add_block(BASE + 128, 32);
    list.add_block(BASE + 192, 32);
    list.add_block(BASE + 160, 32);
    assert_eq!(ranges(&list), vec![(BASE, 16), (BASE + 64, 16), (BASE + 128, 96)]);
    assert_eq!(list.len(), 3);
}

#[test]
fn three_adjacent_blocks_coalesce_in_every_order() {
    let a = (BASE, 64usize);
    let b = (BASE + 64, 128usize);
    let c = (BASE + 192, 32usize);
    let orders = [
        [a, b, c],
        [a, c, b],
        [b, a, c],
        [b, c, a],
        [c, a, b],
        [c, b, a],
    ];
    for order in orders.iter() {
        let mut list = BlockList::default();
        for &(base, size) in order.iter() {
            list.add_block(base, size);
            let (validity, _) = list.stats();
            assert!(validity.is_valid());
        }
        assert_eq!(ranges(&list), vec![(BASE, 224)]);
        assert_eq!(list.len(), 1);
    }
}

#[test]
fn three_adjacent_blocks_coalesce_beside_other_blocks() {
    let a = (BASE + 1024, 64usize);
    let b = (BASE + 1088, 64usize);
    let c = (BASE + 1152, 64usize);
    let orders = [
        [a, b, c],
        [a, c, b],
        [b, a, c],
        [b, c, a],
        [c, a, b],
        [c, b, a],
    ];
    for order in orders.iter() {
        let mut list = BlockList::default();
        list.add_block(BASE, 32);
        list.add_block(BASE + 4096, 32);
        for &(base, size) in order.iter() {
            list.add_block(base, size);
        }
        assert_eq!(
            ranges(&list),
            vec![(BASE, 32), (BASE + 1024, 192), (BASE + 4096, 32)]
        );
        assert_eq!(list.len(), 3);
    }
}

#[test]
fn pop_size_of_empty_list_finds_nothing() {
    let mut list = BlockList::default();
    assert!(list.pop_size(16).is_none());
    assert_eq!(list.len(), 0);
}

#[test]
fn pop_size_exact_fit_unlinks_the_block() {
    let mut list = BlockList::default();
    list.add_block(BASE, 64);
    list.add_block(BASE + 128, 32);
    let range = list.pop_size(64).unwrap();
    assert_eq!((range.start, range.end), (BASE, BASE + 64));
    assert_eq!(ranges(&list), vec![(BASE + 128, 32)]);
    assert_eq!(list.len(), 1);
    let range = list.pop_size(32).unwrap();
    assert_eq!((range.start, range.end), (BASE + 128, BASE + 160));
    assert!(list.is_empty());
    assert!(ranges(&list).is_empty());
}

#[test]
fn pop_size_splits_from_the_upper_end() {
    let mut list = BlockList::default();
    list.add_block(BASE, 256);
    let range = list.pop_size(64).unwrap();
    assert_eq!((range.start, range.end), (BASE + 192, BASE + 256));
    assert_eq!(ranges(&list), vec![(BASE, 192)]);
    assert_eq!(list.len(), 1);
    assert_eq!(list.get_total_memory(), 192);
}

#[test]
fn pop_size_skips_a_block_that_would_leave_too_little() {
    let mut list = BlockList::default();
    list.add_block(BASE, 72);
    list.add_block(BASE + 128, 96);
    // 72 bytes cannot give 64 and keep a header; the next block can
    let range = list.pop_size(64).unwrap();
    assert_eq!((range.start, range.end), (BASE + 160, BASE + 224));
    assert_eq!(ranges(&list), vec![(BASE, 72), (BASE + 128, 32)]);
}

#[test]
fn pop_size_skips_the_only_block_and_finds_nothing() {
    let mut list = BlockList::default();
    list.add_block(BASE, 72);
    assert!(list.pop_size(64).is_none());
    assert_eq!(ranges(&list), vec![(BASE, 72)]);
    assert_eq!(list.len(), 1);
}

#[test]
fn pop_size_takes_the_first_block_that_fits() {
    let mut list = BlockList::default();
    list.add_block(BASE, 32);
    list.add_block(BASE + 64, 128);
    list.add_block(BASE + 256, 128);
    let range = list.pop_size(128).unwrap();
    assert_eq!((range.start, range.end), (BASE + 64, BASE + 192));
    assert_eq!(ranges(&list), vec![(BASE, 32), (BASE + 256, 128)]);
    assert_eq!(list.len(), 2);
}

#[test]
fn pop_size_finds_nothing_when_every_block_is_too_small() {
    let mut list = BlockList::default();
    list.add_block(BASE, 32);
    list.add_block(BASE + 64, 48);
    assert!(list.pop_size(64).is_none());
    assert_eq!(ranges(&list), vec![(BASE, 32), (BASE + 64, 48)]);
}

#[test]
fn pop_size_of_nothing_splits_off_an_empty_range() {
    let mut list = BlockList::default();
    list.add_block(BASE, 32);
    let range = list.pop_size(0).unwrap();
    assert_eq!((range.start, range.end), (BASE + 32, BASE + 32));
    assert_eq!(ranges(&list), vec![(BASE, 32)]);
}

#[test]
fn pop_then_release_restores_the_list() {
    let mut list = BlockList::default();
    list.add_block(BASE, 48);
    list.add_block(BASE + 128, 256);
    list.add_block(BASE + 1024, 64);
    let before = ranges(&list);
    let total = list.get_total_memory();
    let range = list.pop_size(64).unwrap();
    assert_eq!(list.get_total_memory(), total - 64);
    list.add_block(range.start, range.end - range.start);
    assert_eq!(ranges(&list), before);
    assert_eq!(list.get_total_memory(), total);
}

#[test]
fn release_then_pop_hands_out_the_same_block() {
    let mut list = BlockList::default();
    list.add_block(BASE, 32);
    list.add_block(BASE + 1024, 512);
    let before = ranges(&list);
    list.add_block(BASE + 256, 64);
    let range = list.pop_size(64).unwrap();
    assert_eq!((range.start, range.end), (BASE + 256, BASE + 320));
    assert_eq!(ranges(&list), before);
}

#[test]
fn find_adjacent_finds_the_block_at_the_end() {
    let mut list = BlockList::default();
    list.add_block(BASE, 32);
    list.add_block(BASE + 128, 64);
    let found = list.find_adjacent(BASE + 64, 64).unwrap();
    assert_eq!((found.start, found.end), (BASE + 128, BASE + 192));
    let found = list.find_adjacent(BASE - 16, 16).unwrap();
    assert_eq!((found.start, found.end), (BASE, BASE + 32));
}

#[test]
fn find_adjacent_ignores_blocks_that_start_elsewhere() {
    let mut list = BlockList::default();
    list.add_block(BASE, 32);
    list.add_block(BASE + 128, 64);
    assert!(list.find_adjacent(BASE + 64, 32).is_none());
    assert!(list.find_adjacent(BASE + 256, 64).is_none());
    assert!(list.find_adjacent(usize::MAX - 8, 64).is_none());
    assert!(BlockList::default().find_adjacent(BASE, 16).is_none());
}

#[test]
fn take_from_removes_a_block_of_the_same_size() {
    let mut list = BlockList::default();
    list.add_block(BASE, 32);
    list.add_block(BASE + 128, 64);
    assert!(list.take_from(BASE + 128, 64));
    assert_eq!(ranges(&list), vec![(BASE, 32)]);
    assert_eq!(list.len(), 1);
}

#[test]
fn take_from_moves_the_start_of_a_larger_block() {
    let mut list = BlockList::default();
    list.add_block(BASE, 32);
    list.add_block(BASE + 128, 64);
    assert!(list.take_from(BASE + 128, 48));
    assert_eq!(ranges(&list), vec![(BASE, 32), (BASE + 176, 16)]);
    assert_eq!(list.len(), 2);
    assert!(list.take_from(BASE, 16));
    assert_eq!(ranges(&list), vec![(BASE + 16, 16), (BASE + 176, 16)]);
}

#[test]
fn take_from_leaves_the_list_when_it_cannot_take() {
    let mut list = BlockList::default();
    list.add_block(BASE, 32);
    list.add_block(BASE + 128, 72);
    // no block starts there
    assert!(!list.take_from(BASE + 64, 16));
    // the block is too small
    assert!(!list.take_from(BASE, 48));
    // what would be left could not hold a header
    assert!(!list.take_from(BASE + 128, 64));
    assert_eq!(ranges(&list), vec![(BASE, 32), (BASE + 128, 72)]);
    assert_eq!(list.len(), 2);
}

#[test]
fn iter_walks_the_blocks_in_address_order() {
    let mut list = BlockList::default();
    list.add_block(BASE + 64, 16);
    list.add_block(BASE, 32);
    let mut iter = list.iter();
    let first = iter.next().unwrap();
    assert_eq!((first.base, first.size()), (BASE, 32));
    let second = iter.next().unwrap();
    assert_eq!((second.base, second.size()), (BASE + 64, 16));
    assert!(iter.next().is_none());
    assert!(iter.next().is_none());
}

#[test]
fn apply_state_gives_its_result_only_when_finished() {
    let finished: ApplyState<u8, u32> = ApplyState::Finished(7);
    assert_eq!(finished.into_result(), Some(7));
    let going: ApplyState<u8, u32> = ApplyState::Continue(1);
    assert_eq!(going.into_result(), None);
    let failed: ApplyState<u8, u32> = ApplyState::Fail(2);
    assert_eq!(failed.into_result(), None);
}

#[test]
fn relation_of_two_blocks() {
    let middle = block(BASE + 64, 64);
    assert_eq!(block(BASE, 32).relation(&middle), Relation::Before);
    assert_eq!(block(BASE, 64).relation(&middle), Relation::AdjacentBefore);
    assert_eq!(block(BASE, 80).relation(&middle), Relation::Overlapping);
    assert_eq!(block(BASE + 64, 64).relation(&middle), Relation::Overlapping);
    assert_eq!(block(BASE + 112, 64).relation(&middle), Relation::Overlapping);
    assert_eq!(block(BASE + 128, 64).relation(&middle), Relation::AdjacentAfter);
    assert_eq!(block(BASE + 144, 64).relation(&middle), Relation::After);
}

#[test]
fn block_knows_its_size_and_range() {
    let b = block(BASE, 48);
    assert_eq!(b.size(), 48);
    assert_eq!(b.header_view().get_size(), 48);
    let range = b.as_range();
    assert_eq!((range.start, range.end), (BASE, BASE + 48));
    assert!(b.next().is_none());
    assert!(b.can_split(32));
    assert!(!b.can_split(33));
    assert!(b.can_split(0));
    assert!(!b.can_split(48));
    assert!(!b.can_split(usize::MAX));
}

#[test]
fn split_takes_the_upper_bytes() {
    let mut b = block(BASE, 64);
    let range = b.split(16);
    assert_eq!((range.start, range.end), (BASE + 48, BASE + 64));
    assert_eq!((b.base, b.size()), (BASE, 48));
    let range = b.split(32);
    assert_eq!((range.start, range.end), (BASE + 16, BASE + 48));
    assert_eq!((b.base, b.size()), (BASE, 16));
}

#[test]
fn decompose_gives_range_and_chain() {
    let b = FreeBlock::from_raw(BASE, Some(block(BASE + 128, 32)), 64);
    let (range, next) = b.decompose();
    assert_eq!((range.start, range.end), (BASE, BASE + 64));
    let next = next.unwrap();
    assert_eq!((next.base, next.size()), (BASE + 128, 32));
    let (_, none) = next.decompose();
    assert!(none.is_none());
}

#[test]
fn take_and_replace_next() {
    let mut b = block(BASE, 16);
    assert!(b.take_next().is_none());
    assert!(b.replace_next(block(BASE + 64, 16)).is_none());
    assert_eq!(b.next().unwrap().base, BASE + 64);
    let previous = b.replace_next(block(BASE + 128, 16)).unwrap();
    assert_eq!(previous.base, BASE + 64);
    assert_eq!(b.next().unwrap().base, BASE + 128);
    let taken = b.take_next().unwrap();
    assert_eq!(taken.base, BASE + 128);
    assert!(b.next().is_none());
}

#[test]
fn next_mut_and_header_mut_reach_into_the_chain() {
    let mut b = FreeBlock::from_raw(BASE, Some(block(BASE + 64, 32)), 16);
    b.next_mut().unwrap().header_mut().set_size(48);
    assert_eq!(b.next().unwrap().size(), 48);
    b.header_mut().set_size(32);
    assert_eq!(b.size(), 32);
    assert!(block(BASE, 16).next_mut().is_none());
}

#[test]
fn pop_next_unlinks_one_block() {
    let tail = FreeBlock::from_raw(BASE + 64, Some(block(BASE + 128, 16)), 16);
    let mut b = FreeBlock::from_raw(BASE, Some(tail), 16);
    let popped = b.pop_next().unwrap();
    assert_eq!(popped.base, BASE + 64);
    assert!(popped.next().is_none());
    assert_eq!(b.next().unwrap().base, BASE + 128);
    let popped = b.pop_next().unwrap();
    assert_eq!(popped.base, BASE + 128);
    assert!(b.next().is_none());
    assert!(b.pop_next().is_none());
}

#[test]
fn insert_links_a_block_behind() {
    let mut b = FreeBlock::from_raw(BASE, Some(block(BASE + 128, 16)), 16);
    b.insert(block(BASE + 64, 16));
    let second = b.next().unwrap();
    assert_eq!(second.base, BASE + 64);
    assert_eq!(second.next().unwrap().base, BASE + 128);
    assert!(second.next().unwrap().next().is_none());
}

#[test]
fn try_merge_next_absorbs_a_touching_block() {
    let mut b = FreeBlock::from_raw(BASE, Some(block(BASE + 16, 32)), 16);
    assert!(b.try_merge_next());
    assert_eq!((b.base, b.size()), (BASE, 48));
    assert!(b.next().is_none());
    assert!(!b.try_merge_next());
}

#[test]
fn try_merge_next_leaves_a_distant_block() {
    let mut b = FreeBlock::from_raw(BASE, Some(block(BASE + 32, 32)), 16);
    assert!(!b.try_merge_next());
    assert_eq!((b.base, b.size()), (BASE, 16));
    assert_eq!(b.next().unwrap().base, BASE + 32);
}

#[test]
fn try_merge_next_goes_on_while_blocks_touch() {
    let last = FreeBlock::from_raw(BASE + 64, Some(block(BASE + 256, 16)), 32);
    let second = FreeBlock::from_raw(BASE + 16, Some(last), 48);
    let mut b = FreeBlock::from_raw(BASE, Some(second), 16);
    assert!(b.try_merge_next());
    assert_eq!((b.base, b.size()), (BASE, 96));
    let next = b.next().unwrap();
    assert_eq!((next.base, next.size()), (BASE + 256, 16));
}

#[test]
fn try_merge_next_stops_after_the_second_merge() {
    let fourth = block(BASE + 48, 16);
    let third = FreeBlock::from_raw(BASE + 32, Some(fourth), 16);
    let second = FreeBlock::from_raw(BASE + 16, Some(third), 16);
    let mut b = FreeBlock::from_raw(BASE, Some(second), 16);
    assert!(b.try_merge_next());
    assert_eq!((b.base, b.size()), (BASE, 48));
    let next = b.next().unwrap();
    assert_eq!((next.base, next.size()), (BASE + 48, 16));
    assert!(b.try_merge_next());
    assert_eq!((b.base, b.size()), (BASE, 64));
    assert!(b.next().is_none());
}

#[test]
fn insert_merge_counts_its_merges() {
    // nothing touches
    let mut b = FreeBlock::from_raw(BASE, Some(block(BASE + 256, 16)), 16);
    assert_eq!(b.insert_merge(block(BASE + 64, 16)), 0);
    assert_eq!(b.size(), 16);
    assert_eq!(b.next().unwrap().base, BASE + 64);
    assert_eq!(b.next().unwrap().next().unwrap().base, BASE + 256);

    // touches the block behind
    let mut b = FreeBlock::from_raw(BASE, Some(block(BASE + 256, 16)), 16);
    assert_eq!(b.insert_merge(block(BASE + 240, 16)), 1);
    let next = b.next().unwrap();
    assert_eq!((next.base, next.size()), (BASE + 240, 32));
    assert!(next.next().is_none());

    // touches this block
    let mut b = FreeBlock::from_raw(BASE, Some(block(BASE + 256, 16)), 16);
    assert_eq!(b.insert_merge(block(BASE + 16, 16)), 1);
    assert_eq!((b.base, b.size()), (BASE, 32));
    assert_eq!(b.next().unwrap().base, BASE + 256);

    // touches both
    let mut b = FreeBlock::from_raw(BASE, Some(block(BASE + 64, 16)), 16);
    assert_eq!(b.insert_merge(block(BASE + 16, 48)), 2);
    assert_eq!((b.base, b.size()), (BASE, 80));
    assert!(b.next().is_none());

    // no block behind
    let mut b = block(BASE, 16);
    assert_eq!(b.insert_merge(block(BASE + 16, 16)), 1);
    assert_eq!((b.base, b.size()), (BASE, 32));
    let mut b = block(BASE, 16);
    assert_eq!(b.insert_merge(block(BASE + 32, 16)), 0);
    assert_eq!(b.next().unwrap().base, BASE + 32);
}

#[test]
fn coalesce_across_three() {
    let mut list = BlockList::default();
    list.add_block(BASE, 12288);
    // from the top down: a, a gap, b, a gap, c
    let a = list.pop_size(2048).unwrap();
    let upper_gap = list.pop_size(1024).unwrap();
    let b = list.pop_size(2048).unwrap();
    let lower_gap = list.pop_size(1024).unwrap();
    let c = list.pop_size(2048).unwrap();
    assert_eq!(ranges(&list), vec![(BASE, 4096)]);
    list.add_block(upper_gap.start, 1024);
    list.add_block(lower_gap.start, 1024);
    assert_eq!(
        ranges(&list),
        vec![(BASE, 4096), (lower_gap.start, 1024), (upper_gap.start, 1024)]
    );
    list.add_block(c.start, 2048);
    list.add_block(b.start, 2048);
    list.add_block(a.start, 2048);
    assert_eq!(ranges(&list), vec![(BASE, 12288)]);
    assert_eq!(list.len(), 1);
    let (validity, stats) = list.stats();
    assert!(validity.is_valid());
    assert_eq!(stats.get_stats(), (1, 12288));
}
