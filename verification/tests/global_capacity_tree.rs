use std::time::Instant;
use lib::global_capacity_tree::RangeIterator;
use lib::{BPlusTreeMap, GlobalCapacityBPlusTreeMap, KeyBound};
use std::mem;

fn collect<'a>(mut it: RangeIterator<'a, i32, i32>) -> Vec<(&'a i32, &'a i32)> {
    let mut out = Vec::new();
    while let Some(item) = it.next() {
        out.push(item);
    }
    out
}

#[test]
fn test_memory_savings() {
    let original_size = mem::size_of::<BPlusTreeMap<i32, i32>>();
    let optimized_size = mem::size_of::<GlobalCapacityBPlusTreeMap<i32, i32>>();
    println!("Original BPlusTreeMap size: {} bytes", original_size);
    println!("Global capacity BPlusTreeMap size: {} bytes", optimized_size);
    assert!(optimized_size <= original_size + 16);
}

#[test]
fn test_basic_operations() {
    let mut tree = GlobalCapacityBPlusTreeMap::new(4).unwrap();

    assert!(tree.is_empty());
    assert_eq!(tree.len(), 0);
    assert_eq!(tree.capacity(), 4);

    assert_eq!(tree.insert(10, 100).unwrap(), None);
    assert_eq!(tree.insert(20, 200).unwrap(), None);
    assert_eq!(tree.insert(30, 300).unwrap(), None);

    assert!(!tree.is_empty());
    assert_eq!(tree.len(), 3);

    assert_eq!(tree.get(&10), Some(&100));
    assert_eq!(tree.get(&20), Some(&200));
    assert_eq!(tree.get(&30), Some(&300));
    assert_eq!(tree.get(&40), None);

    assert_eq!(tree.insert(20, 222).unwrap(), Some(200));
    assert_eq!(tree.get(&20), Some(&222));

    assert_eq!(tree.remove(&20).unwrap(), Some(222));
    assert_eq!(tree.get(&20), None);
    assert_eq!(tree.len(), 2);
}

#[test]
fn test_node_splitting() {
    let mut tree = GlobalCapacityBPlusTreeMap::new(4).unwrap();
    for i in 0..10 {
        tree.insert(i, i * 10).unwrap();
    }
    assert_eq!(tree.len(), 10);
    for i in 0..10 {
        assert_eq!(tree.get(&i), Some(&(i * 10)));
    }
}

#[test]
fn global_capacity_tree_test_clear() {
    let mut tree = GlobalCapacityBPlusTreeMap::new(4).unwrap();
    for i in 0..5 {
        tree.insert(i, i).unwrap();
    }
    assert_eq!(tree.len(), 5);
    tree.clear();
    assert!(tree.is_empty());
    assert_eq!(tree.len(), 0);
    tree.insert(42, 42).unwrap();
    assert_eq!(tree.get(&42), Some(&42));
}

#[test]
fn test_range_queries() {
    let mut tree = GlobalCapacityBPlusTreeMap::new(4).unwrap();
    for i in 0..10 {
        tree.insert(i, i * 10).unwrap();
    }

    let range_items = collect(tree.range(KeyBound::Included(3), KeyBound::Included(6)));
    assert_eq!(range_items, vec![(&3, &30), (&4, &40), (&5, &50), (&6, &60)]);

    let range_items = collect(tree.range(KeyBound::Included(3), KeyBound::Excluded(6)));
    assert_eq!(range_items, vec![(&3, &30), (&4, &40), (&5, &50)]);

    let all_items = collect(tree.range(KeyBound::Unbounded, KeyBound::Unbounded));
    assert_eq!(all_items.len(), 10);

    let from_start = collect(tree.range(KeyBound::Unbounded, KeyBound::Excluded(5)));
    assert_eq!(from_start, vec![(&0, &0), (&1, &10), (&2, &20), (&3, &30), (&4, &40)]);

    let to_end = collect(tree.range(KeyBound::Included(7), KeyBound::Unbounded));
    assert_eq!(to_end, vec![(&7, &70), (&8, &80), (&9, &90)]);
}

#[test]
fn test_range_performance_analysis() {

    let mut tree = GlobalCapacityBPlusTreeMap::new(16).unwrap();
    let n = 10000;
    println!("Inserting {} items...", n);
    let start = Instant::now();
    for i in 0..n {
        tree.insert(i, i * 10).unwrap();
    }
    let insert_time = start.elapsed();
    println!("Insert time: {:?} ({:.2} µs per item)", insert_time, insert_time.as_micros() as f64 / n as f64);

    let range_sizes = vec![10, 100, 1000, 5000];
    for range_size in range_sizes {
        let start_key = n / 2 - range_size / 2;
        let end_key = start_key + range_size;
        println!("\n--- Range query: {}..{} (size: {}) ---", start_key, end_key, range_size);

        let start = Instant::now();
        let range_iter = tree.range(KeyBound::Included(start_key), KeyBound::Excluded(end_key));
        let range_creation_time = start.elapsed();

        let start = Instant::now();
        let items = collect(range_iter);
        let iteration_time = start.elapsed();

        println!("Range creation: {:?}", range_creation_time);
        println!("Iteration time: {:?} ({:.2} µs per item)", iteration_time, iteration_time.as_micros() as f64 / items.len() as f64);
        println!("Items collected: {}", items.len());

        if range_size > 10 {
            let time_per_item = iteration_time.as_nanos() as f64 / items.len() as f64;
            println!("Time per item: {:.2} ns", time_per_item);
        }
    }

    println!("\n--- Single key lookups ---");
    let lookup_keys = vec![100, 1000, 5000, 9000];
    for key in lookup_keys {
        let start = Instant::now();
        let _value = tree.get(&key);
        let lookup_time = start.elapsed();
        println!("Lookup key {}: {:?}", key, lookup_time);
    }

    println!("\n--- Range creation scaling test ---");
    let tree_sizes = vec![1000, 5000, 10000, 50000];
    for tree_size in tree_sizes {
        let mut test_tree = GlobalCapacityBPlusTreeMap::new(16).unwrap();
        for i in 0..tree_size {
            test_tree.insert(i, i * 10).unwrap();
        }
        let start_key = tree_size / 2;
        let end_key = start_key + 10;
        let start = Instant::now();
        let _range_iter = test_tree.range(KeyBound::Included(start_key), KeyBound::Excluded(end_key));
        let range_creation_time = start.elapsed();
        println!("Tree size: {}, Range creation: {:?}", tree_size, range_creation_time);
    }
}

#[test]
fn test_key_value_operations() {
    let mut tree = GlobalCapacityBPlusTreeMap::new(4).unwrap();
    for i in 0..5 {
        tree.insert(i, i * 10).unwrap();
    }

    assert!(tree.contains_key(&2));
    assert!(!tree.contains_key(&10));

    assert_eq!(tree.get_key_value(&3), Some((&3, &30)));
    assert_eq!(tree.get_key_value(&10), None);

    assert_eq!(tree.remove_entry(&2).unwrap(), Some((2, 20)));
    assert_eq!(tree.remove_entry(&2).unwrap(), None);
    assert_eq!(tree.len(), 4);
}

#[test]
fn test_first_last_operations() {
    let mut tree = GlobalCapacityBPlusTreeMap::new(4).unwrap();

    assert_eq!(tree.first_key_value(), None);
    assert_eq!(tree.last_key_value(), None);
    assert_eq!(tree.pop_first().unwrap(), None);
    assert_eq!(tree.pop_last().unwrap(), None);

    for i in [5, 2, 8, 1, 9, 3] {
        tree.insert(i, i * 10).unwrap();
    }

    assert_eq!(tree.first_key_value(), Some((&1, &10)));
    assert_eq!(tree.last_key_value(), Some((&9, &90)));

    assert_eq!(tree.pop_first().unwrap(), Some((1, 10)));
    assert_eq!(tree.first_key_value(), Some((&2, &20)));

    assert_eq!(tree.pop_last().unwrap(), Some((9, 90)));
    assert_eq!(tree.last_key_value(), Some((&8, &80)));

    assert_eq!(tree.len(), 4);
}

#[test]
fn gc_get_mut_sets_value() {
    let mut tree = GlobalCapacityBPlusTreeMap::new(4).unwrap();
    for i in 0..20 {
        tree.insert(i, i).unwrap();
    }
    if let Some(v) = tree.get_mut(&13) {
        *v = 1300;
    }
    assert_eq!(tree.get(&13), Some(&1300));
    assert!(tree.get_mut(&99).is_none());
    assert_eq!(tree.len(), 20);
}

#[test]
fn gc_range_excluded_start_and_empty_leaves() {
    let mut tree = GlobalCapacityBPlusTreeMap::new(4).unwrap();
    for i in 0..12 {
        tree.insert(i, i).unwrap();
    }
    let from_excluded = collect(tree.range(KeyBound::Excluded(3), KeyBound::Included(6)));
    assert_eq!(from_excluded, vec![(&4, &4), (&5, &5), (&6, &6)]);
    // Empty out a leaf in the middle without rebalancing; iteration skips it.
    for k in [4, 5, 6] {
        assert_eq!(tree.remove_entry(&k).unwrap(), Some((k, k)));
    }
    let keys: Vec<i32> = collect(tree.range(KeyBound::Included(2), KeyBound::Excluded(9))).iter().map(|(k, _)| **k).collect();
    assert_eq!(keys, vec![2, 3, 7, 8]);
    let past_end = collect(tree.range(KeyBound::Excluded(11), KeyBound::Unbounded));
    assert!(past_end.is_empty());
}

#[test]
fn gc_remove_below_branch_root() {
    let mut tree = GlobalCapacityBPlusTreeMap::new(4).unwrap();
    for i in 0..10 {
        tree.insert(i, i * 10).unwrap();
    }
    assert_eq!(tree.remove(&5).unwrap(), Some(50));
    assert_eq!(tree.get(&5), None);
    assert_eq!(tree.len(), 9);
    assert_eq!(tree.remove(&5).unwrap(), None);
}

#[test]
fn gc_pop_first_past_emptied_leaf() {
    let mut tree = GlobalCapacityBPlusTreeMap::new(4).unwrap();
    for i in 0..10 {
        tree.insert(i, i * 10).unwrap();
    }
    assert_eq!(tree.pop_first().unwrap(), Some((0, 0)));
    assert_eq!(tree.pop_first().unwrap(), Some((1, 10)));
    assert_eq!(tree.pop_first().unwrap(), Some((2, 20)));
    assert_eq!(tree.len(), 7);
    assert_eq!(tree.first_key_value(), Some((&3, &30)));
    for _ in 0..6 {
        assert!(tree.pop_last().unwrap().is_some());
    }
    assert_eq!(tree.last_key_value(), Some((&3, &30)));
    assert_eq!(tree.pop_last().unwrap(), Some((3, 30)));
    assert!(tree.is_empty());
    assert_eq!(tree.pop_last().unwrap(), None);
}

#[test]
fn gc_is_empty_after_removing_everything() {
    let mut tree = GlobalCapacityBPlusTreeMap::new(4).unwrap();
    for i in 0..5 {
        tree.insert(i, i).unwrap();
    }
    assert!(!tree.is_empty());
    for i in 0..5 {
        assert_eq!(tree.remove_entry(&i).unwrap(), Some((i, i)));
    }
    assert_eq!(tree.len(), 0);
    assert!(tree.is_empty());
}

#[test]
fn gc_invalid_capacity() {
    assert!(GlobalCapacityBPlusTreeMap::<i32, i32>::new(3).is_err());
    assert!(GlobalCapacityBPlusTreeMap::<i32, i32>::new(4).is_ok());
}
