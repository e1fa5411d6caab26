use lib::{BPlusTreeMap, KeyBound};
use std::time::Instant;

fn keys_of<V>(mut it: lib::iteration::RangeIterator<'_, i32, V>) -> Vec<i32> {
    let mut out = Vec::new();
    while let Some((k, _)) = it.next() {
        out.push(*k);
    }
    out
}

#[test]
fn test_range_startup_performance() {
    let mut tree = BPlusTreeMap::new(16).unwrap();
    let tree_size = 10_000;
    for i in 0..tree_size {
        tree.insert(i, format!("value_{}", i));
    }
    let start_key = tree_size / 2;
    let iterations = 1000;
    let start_time = Instant::now();
    for i in 0..iterations {
        let key = start_key + (i % 100);
        let _iter = tree.range(KeyBound::Included(key), KeyBound::Excluded(key + 1));
    }
    let elapsed = start_time.elapsed();
    let avg_time_ns = elapsed.as_nanos() / iterations as u128;
    println!("Average range creation time: {}ns", avg_time_ns);
    assert!(avg_time_ns < 10_000, "Range creation too slow: {}ns", avg_time_ns);
}

#[test]
fn test_range_excluded_bounds_optimization() {
    let mut tree = BPlusTreeMap::new(16).unwrap();
    for i in 0..100 {
        tree.insert(i, format!("value_{}", i));
    }
    let start_time = Instant::now();
    let range = keys_of(tree.range(KeyBound::Included(50), KeyBound::Excluded(60)));
    let elapsed = start_time.elapsed();
    assert_eq!(range, vec![50, 51, 52, 53, 54, 55, 56, 57, 58, 59]);
    println!("Excluded bounds range time: {}µs", elapsed.as_micros());
    let iterations = 100;
    let start_time = Instant::now();
    for i in 0..iterations {
        let start = 10 + (i % 80);
        let _range = keys_of(tree.range(KeyBound::Included(start), KeyBound::Excluded(start + 5)));
    }
    let elapsed = start_time.elapsed();
    let avg_time_us = elapsed.as_micros() / iterations as u128;
    println!("Average excluded bounds range time: {}µs", avg_time_us);
    assert!(avg_time_us < 100, "Excluded bounds range too slow: {}µs", avg_time_us);
}

#[test]
fn test_range_included_bounds_optimization() {
    let mut tree = BPlusTreeMap::new(16).unwrap();
    for i in 0..100 {
        tree.insert(i, format!("value_{}", i));
    }
    let range = keys_of(tree.range(KeyBound::Included(50), KeyBound::Included(59)));
    assert_eq!(range, vec![50, 51, 52, 53, 54, 55, 56, 57, 58, 59]);
    let iterations = 100;
    let start_time = Instant::now();
    for i in 0..iterations {
        let start = 10 + (i % 80);
        let _range = keys_of(tree.range(KeyBound::Included(start), KeyBound::Included(start + 4)));
    }
    let elapsed = start_time.elapsed();
    let avg_time_us = elapsed.as_micros() / iterations as u128;
    println!("Average included bounds range time: {}µs", avg_time_us);
    assert!(avg_time_us < 100, "Included bounds range too slow: {}µs", avg_time_us);
}

#[test]
fn test_range_unbounded_optimization() {
    let mut tree = BPlusTreeMap::new(16).unwrap();
    for i in 0..50 {
        tree.insert(i, format!("value_{}", i));
    }
    let full_range = keys_of(tree.range(KeyBound::Unbounded, KeyBound::Unbounded));
    assert_eq!(full_range.len(), 50);
    assert_eq!(full_range[0], 0);
    assert_eq!(full_range[49], 49);
    let from_range = keys_of(tree.range(KeyBound::Included(25), KeyBound::Unbounded));
    assert_eq!(from_range.len(), 25);
    assert_eq!(from_range[0], 25);
    assert_eq!(from_range[24], 49);
    let to_range = keys_of(tree.range(KeyBound::Unbounded, KeyBound::Excluded(25)));
    assert_eq!(to_range.len(), 25);
    assert_eq!(to_range[0], 0);
    assert_eq!(to_range[24], 24);
}

#[test]
fn test_range_empty_results() {
    let mut tree = BPlusTreeMap::new(16).unwrap();
    for i in 0..10 {
        tree.insert(i * 10, format!("value_{}", i * 10));
    }
    let empty_range = keys_of(tree.range(KeyBound::Included(5), KeyBound::Excluded(8)));
    assert_eq!(empty_range, Vec::<i32>::new());
    let beyond_range = keys_of(tree.range(KeyBound::Included(100), KeyBound::Excluded(200)));
    assert_eq!(beyond_range, Vec::<i32>::new());
    let before_range = keys_of(tree.range(KeyBound::Included(-10), KeyBound::Excluded(-1)));
    assert_eq!(before_range, Vec::<i32>::new());
}
