use bwspi::sarkar_bucket_array::MAX_TREE_IDS;
use bwspi::{bit_width, Bwspi};

#[test]
fn width_orders_values_across_buckets() {
    let samples = [0u64, 1, 2, 3, 4, 7, 8, 255, 256, 1 << 31, (1 << 32) - 1, 1 << 63, u64::MAX];
    for &a in &samples {
        for &b in &samples {
            if bit_width(a) < bit_width(b) {
                assert!(a < b);
            }
            if a <= b {
                assert!(bit_width(a) <= bit_width(b));
            }
        }
    }
    assert_eq!(bit_width(255), 8);
    assert_eq!(bit_width(256), 9);
}

#[test]
fn inserted_value_is_found_and_len_counts_it() {
    let mut index = Bwspi::new();
    assert!(index.is_empty());
    let id = index.insert(123_456);
    assert_eq!(id, 0);
    assert!(index.contains(123_456));
    assert_eq!(index.find(123_456), Some(0));
    assert_eq!(index.get(0), Some(123_456));
    assert_eq!(index.len(), 1);
    assert!(!index.is_empty());
    assert_eq!(index.insert(5), 1);
}

#[test]
fn removal_lowers_len_and_keeps_storage() {
    let mut index = Bwspi::new();
    for v in [10u64, 20, 30, 20] {
        index.insert(v);
    }
    assert!(index.remove(20));
    assert_eq!(index.len(), 3);
    assert_eq!(index.storage_len(), 4);
    assert_eq!(index.data(), &[10, 20, 30, 20]);
    assert!(index.contains(20));
    assert!(index.remove(20));
    assert!(!index.contains(20));
    assert!(!index.remove(20));
    assert!(!index.remove(1 << 50));
    assert_eq!(index.len(), 2);
    assert_eq!(index.get(1), None);
    assert_eq!(index.get(3), None);
    assert_eq!(index.get(99), None);
}

#[test]
fn remove_at_rejects_unknown_and_removed_ids() {
    let mut index = Bwspi::new();
    assert!(!index.remove_at(0));
    let id = index.insert(9);
    assert!(!index.remove_at(id + 1));
    assert!(index.remove_at(id));
    assert!(!index.remove_at(id));
    assert!(index.is_empty());
    assert_eq!(index.bucket_slots(), 0);
}

#[test]
fn update_reports_missing_values() {
    let mut index = Bwspi::new();
    index.insert(8);
    assert!(!index.update(9, 10));
    assert!(!index.update(1 << 40, 10));
    assert!(index.update(8, 1 << 40));
    assert_eq!(index.get(0), Some(1 << 40));
    assert_eq!(index.bucket_slots(), 42);
    assert!(!index.update_at(5, 1));
}

#[test]
fn find_all_is_nonempty_exactly_when_contains() {
    let mut index = Bwspi::new();
    for v in [5u64, 6, 5, 7, 5] {
        index.insert(v);
    }
    index.remove_at(2);
    for t in [5u64, 6, 7, 8, 0] {
        assert_eq!(!index.find_all(t).is_empty(), index.contains(t));
    }
    let mut all = index.find_all(5);
    all.sort();
    assert_eq!(all, vec![0, 4]);
}

#[test]
fn bulk_insert_matches_repeated_insert_on_small_input() {
    let values = [3u64, 0, u64::MAX, 3, 1 << 20, 17];
    let mut bulk = Bwspi::new();
    bulk.insert(99);
    bulk.insert_bulk(&values);
    let mut single = Bwspi::new();
    single.insert(99);
    for &v in &values {
        single.insert(v);
    }
    assert_eq!(bulk.data(), single.data());
    assert_eq!(bulk.iter(), single.iter());
    assert_eq!(bulk.len(), 7);
    for &v in &values {
        assert!(bulk.contains(v));
    }
    bulk.insert_bulk(&[]);
    assert_eq!(bulk.len(), 7);
}

#[test]
fn iter_lists_live_entries_in_storage_order() {
    let mut index = Bwspi::new();
    for v in [4u64, 5, 6, 7] {
        index.insert(v);
    }
    index.remove_at(1);
    index.update_at(3, 70);
    assert_eq!(index.iter(), vec![(0, 4), (2, 6), (3, 70)]);
}

#[test]
fn bucket_statistics_follow_the_live_widths() {
    let mut index = Bwspi::new();
    for v in [1u64, 2, 3, 3, 200, 1 << 33] {
        index.insert(v);
    }
    assert_eq!(index.bucket_slots(), 35);
    assert_eq!(index.bucket_size(1), 1);
    assert_eq!(index.bucket_size(2), 3);
    assert_eq!(index.bucket_size(8), 1);
    assert_eq!(index.bucket_size(34), 1);
    assert_eq!(index.bucket_size(64), 0);
    assert_eq!(index.bucket_size(1000), 0);
    assert_eq!(index.active_bucket_count(), 4);
    assert_eq!(index.max_bucket_size(), 3);
    assert_eq!(index.distribution_counts(), vec![(1, 1), (2, 3), (8, 1), (34, 1)]);
    let total: usize = index.distribution_counts().iter().map(|&(_, c)| c).sum();
    assert_eq!(total, index.len());
    assert!(index.remove(1 << 33));
    assert_eq!(index.bucket_slots(), 9);
    assert_eq!(index.bucket_indices(2).len(), 3);
    assert!(index.bucket_indices(40).is_empty());
}

#[test]
fn empty_index_statistics() {
    let index = Bwspi::default();
    assert_eq!(index.len(), 0);
    assert_eq!(index.bucket_slots(), 0);
    assert_eq!(index.active_bucket_count(), 0);
    assert_eq!(index.max_bucket_size(), 0);
    assert!(index.distribution_counts().is_empty());
    assert!(index.iter().is_empty());
    assert!(!index.tree_has_split(3));
    assert_eq!(index.tree_max_depth(3), 0);
}

#[test]
fn snapshot_after_sort_gives_the_same_values() {
    let mut index = Bwspi::new();
    for v in [9u64, 1, 8, 1, 300, 2, u64::MAX, 0] {
        index.insert(v);
    }
    index.remove_at(3);
    index.remove_at(6);
    let snapshot = index.sorted_snapshot();
    assert_eq!(snapshot, vec![0, 1, 2, 8, 9, 300]);
    let stats = index.sarkar_sort();
    assert!(stats.buckets_sorted > 0);
    assert!(stats.buckets_sorted <= 6);
    assert!(stats.swaps <= 8);
    let values: Vec<u64> = index.iter().into_iter().map(|(_, v)| v).collect();
    assert_eq!(values, snapshot);
    assert_eq!(index.data(), &[0, 1, 2, 8, 9, 300, 1, u64::MAX]);
    assert_eq!(index.iter().into_iter().map(|(id, _)| id).collect::<Vec<_>>(), vec![0, 1, 2, 3, 4, 5]);
    assert_eq!(index.get(6), None);
    let again = index.sort_in_place();
    assert_eq!(index.data(), &[0, 1, 2, 8, 9, 300, 1, u64::MAX]);
    assert_eq!(again.swaps, 0);
}

#[test]
fn sort_of_empty_index_reports_nothing() {
    let mut index = Bwspi::new();
    let stats = index.sarkar_sort();
    assert_eq!(stats.buckets_sorted, 0);
    assert_eq!(stats.swaps, 0);
    index.insert(4);
    index.remove_at(0);
    let stats = index.sarkar_sort();
    assert_eq!(stats.buckets_sorted, 0);
    assert_eq!(index.data(), &[4]);
    assert!(index.sorted_snapshot().is_empty());
}

#[test]
fn memory_usage_covers_store_and_positions() {
    let mut index = Bwspi::new();
    for v in 0..1000u64 {
        index.insert(v * 7);
    }
    assert!(index.contains(70));
    assert!(index.memory_usage_bytes() >= 16 * index.storage_len());
    assert!(MAX_TREE_IDS >= 1 << 28);
}

#[test]
fn tree_splits_past_one_leaf() {
    let mut index = Bwspi::new();
    for i in 0..64u64 {
        index.insert(1024 + i);
    }
    assert!(index.contains(1024));
    assert!(!index.tree_has_split(11));
    assert_eq!(index.tree_max_depth(11), 0);
    for i in 64..300u64 {
        index.insert(1024 + i);
    }
    assert!(index.contains(1024 + 299));
    assert!(!index.tree_has_split(11));
    index.insert_bulk(&[1024 + 300]);
    assert!(index.contains(1024));
    assert!(index.tree_has_split(11));
    assert!(index.tree_max_depth(11) >= 1);
}

#[test]
fn usage_walkthrough() {
    let mut index = Bwspi::new();
    index.insert(42);
    index.insert(1000);
    index.insert(7);
    assert!(index.contains(42));
    assert!(!index.contains(999));
    assert_eq!(index.find(1000), Some(1));
    index.insert(42);
    assert_eq!(index.find_all(42), vec![0, 3]);
    assert!(index.remove(42));
    assert_eq!(index.data(), &[42, 1000, 7, 42]);
    assert_eq!(index.len(), 3);

    let data = vec![1, 2, 3, 100, 200, 300];
    let mut bulk = Bwspi::with_capacity(data.len());
    bulk.insert_bulk(&data);
    assert_eq!(bulk.len(), 6);
    assert_eq!(bulk.bucket_slots(), 10);
    assert_eq!(bulk.active_bucket_count(), 5);
    assert!(bulk.memory_usage_bytes() >= 16 * 6);
}

#[test]
fn bucket_slots_grow_and_shrink_with_the_widest_value() {
    let mut index = Bwspi::new();
    index.insert(5);
    assert_eq!(index.bucket_slots(), 4);
    index.insert(1000);
    assert_eq!(index.bucket_slots(), 11);
    let top = index.insert(1 << 63);
    assert_eq!(index.bucket_slots(), 65);
    assert!(index.remove_at(top));
    assert_eq!(index.bucket_slots(), 11);
    assert_eq!(index.active_bucket_count(), 2);
}

#[test]
fn duplicates_are_all_kept() {
    let mut index = Bwspi::new();
    index.insert(42);
    index.insert(42);
    index.insert(42);
    assert_eq!(index.find_all(42), vec![0, 1, 2]);
    assert_eq!(index.len(), 3);
    assert_eq!(index.bucket_size(6), 3);
}

#[test]
fn reads_after_writes() {
    let mut index = Bwspi::new();
    let a = index.insert(11);
    let b = index.insert(12);
    assert_eq!(index.get(a), Some(11));
    assert!(index.update_at(b, 11));
    assert_eq!(index.get(b), Some(11));
    assert_eq!(index.get(a), Some(11));
    assert_eq!(index.find_all(11), vec![a, b]);
    assert!(index.remove_at(a));
    assert_eq!(index.get(a), None);
    assert!(index.contains(11));
    assert!(index.remove_at(b));
    assert!(!index.contains(11));
}

#[test]
fn sort_keeps_contains_answers() {
    let mut index = Bwspi::new();
    for v in [50u64, 3, 77, 3, 1 << 45, 0, 19] {
        index.insert(v);
    }
    index.remove_at(2);
    index.remove(3);
    let probes = [0u64, 3, 19, 50, 77, 1 << 45, 4, 1 << 44];
    let before: Vec<bool> = probes.iter().map(|&p| index.contains(p)).collect();
    index.sarkar_sort();
    let after: Vec<bool> = probes.iter().map(|&p| index.contains(p)).collect();
    assert_eq!(before, after);
    assert_eq!(before, vec![true, true, true, true, false, true, false, false]);
}

#[test]
fn active_buckets_count_distinct_live_widths() {
    let mut index = Bwspi::new();
    for v in [1u64, 2, 3, 4, 1024, 1025] {
        index.insert(v);
    }
    assert_eq!(index.active_bucket_count(), 4);
    assert!(index.active_bucket_count() <= index.bucket_slots());
    assert!(index.remove(1024));
    assert_eq!(index.active_bucket_count(), 4);
    assert!(index.remove(1025));
    assert_eq!(index.active_bucket_count(), 3);
    for v in [1u64, 2, 3, 4] {
        assert!(index.remove(v));
    }
    assert_eq!(index.len(), 0);
    assert_eq!(index.active_bucket_count(), 0);
}

#[test]
fn copies_of_one_value_split_down_to_spent_bits() {
    let mut index = Bwspi::new();
    for _ in 0..100 {
        index.insert(5);
    }
    assert!(index.contains(5));
    assert!(index.tree_has_split(3));
    assert_eq!(index.tree_max_depth(3), 11);
    assert_eq!(index.find_all(5).len(), 100);
}

#[test]
fn a_full_leaf_stays_a_leaf_until_rebuilt() {
    let mut index = Bwspi::new();
    for i in 0..64u64 {
        index.insert(64 + i);
    }
    assert!(index.contains(64));
    assert!(!index.tree_has_split(7));
    for i in 0..64u64 {
        index.insert(64 + i);
    }
    assert!(!index.tree_has_split(7));
    assert_eq!(index.find_all(64), vec![0, 64]);
    index.insert_bulk(&[127]);
    assert!(index.contains(127));
    assert!(index.tree_has_split(7));
    assert_eq!(index.find_all(127), vec![63, 127, 128]);
}

#[test]
fn with_capacity_reserves_room_for_the_store_and_positions() {
    let index = Bwspi::with_capacity(100);
    assert_eq!(index.len(), 0);
    assert_eq!(index.storage_len(), 0);
    assert_eq!(index.bucket_slots(), 0);
    assert!(index.data().is_empty());
    assert!(index.memory_usage_bytes() >= 16 * 100);
}
