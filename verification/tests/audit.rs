use basic_allocator::blocklist::{Stats, Validity};
use basic_allocator::relation::{code_of, relation_of, AtomicRelation, Relation};

#[test]
fn validity_counts_what_is_recorded() {
    let mut validity = Validity::default();
    assert!(validity.is_valid());
    validity.record_overlap();
    assert!(!validity.is_valid());
    assert_eq!((validity.overlaps, validity.adjacents, validity.out_of_orders), (1, 0, 0));
    validity.record_adjacent();
    validity.record_adjacent();
    validity.record_out_of_order();
    assert_eq!((validity.overlaps, validity.adjacents, validity.out_of_orders), (1, 2, 1));
}

#[test]
fn validity_is_spoilt_by_each_count() {
    let mut adjacent = Validity::default();
    adjacent.record_adjacent();
    assert!(!adjacent.is_valid());
    let mut out_of_order = Validity::default();
    out_of_order.record_out_of_order();
    assert!(!out_of_order.is_valid());
}

#[test]
fn validity_counts_wrap() {
    let mut validity = Validity { overlaps: usize::MAX, adjacents: 0, out_of_orders: 0 };
    validity.record_overlap();
    assert_eq!(validity.overlaps, 0);
    assert!(validity.is_valid());
}

#[test]
fn validity_turns_into_bool() {
    assert!(bool::from(Validity::default()));
    let mut validity = Validity::default();
    validity.record_out_of_order();
    assert!(!bool::from(validity));
}

#[test]
fn stats_count_blocks_and_bytes() {
    let mut stats = Stats::default();
    assert_eq!(stats.get_stats(), (0, 0));
    stats.add_block(64);
    stats.add_block(16);
    assert_eq!(stats.get_stats(), (2, 80));
    assert_eq!((stats.length, stats.size), (2, 80));
    stats.add_block(0);
    assert_eq!(stats.get_stats(), (3, 80));
}

#[test]
fn stats_wrap() {
    let mut stats = Stats { length: usize::MAX, size: usize::MAX - 3 };
    stats.add_block(10);
    assert_eq!(stats.get_stats(), (0, 6));
}

#[test]
fn relation_codes() {
    let all = [
        Relation::Before,
        Relation::AdjacentBefore,
        Relation::Overlapping,
        Relation::AdjacentAfter,
        Relation::After,
    ];
    for (code, &relation) in all.iter().enumerate() {
        assert_eq!(code_of(relation), code);
        assert_eq!(relation_of(code), relation);
    }
}

#[test]
fn atomic_relation_load_and_store() {
    let mut cell = AtomicRelation::new(Relation::Overlapping);
    assert_eq!(cell.load(), Relation::Overlapping);
    cell.store(Relation::After);
    assert_eq!(cell.load(), Relation::After);
    cell.store(Relation::Before);
    assert_eq!(cell.load(), Relation::Before);
}

#[test]
fn atomic_relation_compare_exchange() {
    let mut cell = AtomicRelation::new(Relation::AdjacentBefore);
    assert_eq!(
        cell.compare_exchange(Relation::AdjacentBefore, Relation::AdjacentAfter),
        Ok(Relation::AdjacentAfter)
    );
    assert_eq!(cell.load(), Relation::AdjacentAfter);
    assert_eq!(
        cell.compare_exchange(Relation::Before, Relation::After),
        Err(Relation::AdjacentAfter)
    );
    assert_eq!(cell.load(), Relation::AdjacentAfter);
    assert_eq!(
        cell.compare_exchange(Relation::AdjacentAfter, Relation::AdjacentAfter),
        Ok(Relation::AdjacentAfter)
    );
}
