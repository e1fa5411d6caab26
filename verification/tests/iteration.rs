use lib::{BPlusTreeMap, KeyBound};

fn keys_of<V>(mut it: lib::iteration::RangeIterator<'_, i32, V>) -> Vec<i32> {
    let mut out = Vec::new();
    while let Some((k, _)) = it.next() {
        out.push(*k);
    }
    out
}

#[test]
fn test_leaf_caching_optimization_proof() {
    let mut tree = BPlusTreeMap::new(4).unwrap();
    for i in 0..20 {
        tree.insert(i, i * 100);
    }
    let mut iter = tree.items();
    let first_item = iter.next();
    assert_eq!(first_item, Some((&0, &0)));
    assert!(iter.current_leaf_ref.is_some(), "Leaf reference should be cached after first next() call");
    let second_item = iter.next();
    assert_eq!(second_item, Some((&1, &100)));
    assert!(iter.current_leaf_ref.is_some(), "Leaf reference should remain cached within same leaf");
    let mut count = 2;
    while let Some((k, v)) = iter.next() {
        assert_eq!(*k, count);
        assert_eq!(*v, count * 100);
        count += 1;
    }
    assert_eq!(count, 20);
}

#[test]
fn test_fast_iterator_also_uses_leaf_caching() {
    let mut tree = BPlusTreeMap::new(4).unwrap();
    for i in 0..20 {
        tree.insert(i, i * 100);
    }
    let mut fast_iter = tree.items_fast();
    let first_item = fast_iter.next();
    assert_eq!(first_item, Some((&0, &0)));
    assert!(fast_iter.current_leaf_ref.is_some(), "FastItemIterator should also cache leaf references");
    let mut count = 1;
    while let Some((k, v)) = fast_iter.next() {
        assert_eq!(*k, count);
        assert_eq!(*v, count * 100);
        count += 1;
    }
    assert_eq!(count, 20);
}

#[test]
fn keys_and_values_come_in_key_order() {
    let mut tree = BPlusTreeMap::new(4).unwrap();
    for i in [9, 3, 7, 1, 5, 8, 2, 6, 4, 0] {
        tree.insert(i, i * 11);
    }
    let mut keys = Vec::new();
    let mut it = tree.keys();
    while let Some(k) = it.next() {
        keys.push(*k);
    }
    assert_eq!(keys, (0..10).collect::<Vec<i32>>());
    let mut values = Vec::new();
    let mut vit = tree.values();
    while let Some(v) = vit.next() {
        values.push(*v);
    }
    assert_eq!(values, (0..10).map(|i| i * 11).collect::<Vec<i32>>());
    assert_eq!(vit.next(), None);
}

#[test]
fn first_last_and_slice() {
    let mut tree = BPlusTreeMap::new(4).unwrap();
    assert_eq!(tree.first(), None);
    assert_eq!(tree.last(), None);
    for i in 10..40 {
        tree.insert(i, -i);
    }
    assert_eq!(tree.first(), Some((&10, &-10)));
    assert_eq!(tree.last(), Some((&39, &-39)));
    let s = tree.slice();
    assert_eq!(s.len(), 30);
    assert_eq!(s[0], (&10, &-10));
    assert_eq!(s[29], (&39, &-39));
    let sizes = tree.leaf_sizes();
    assert_eq!(sizes.iter().sum::<usize>(), 30);
}

#[test]
fn range_bounds_of_each_kind() {
    let mut tree = BPlusTreeMap::new(16).unwrap();
    for i in 0..10 {
        tree.insert(i, format!("value{}", i));
    }
    assert_eq!(keys_of(tree.range(KeyBound::Included(3), KeyBound::Excluded(7))), vec![3, 4, 5, 6]);
    assert_eq!(keys_of(tree.range(KeyBound::Included(3), KeyBound::Included(7))), vec![3, 4, 5, 6, 7]);
    assert_eq!(keys_of(tree.range(KeyBound::Included(5), KeyBound::Unbounded)), vec![5, 6, 7, 8, 9]);
    assert_eq!(keys_of(tree.range(KeyBound::Unbounded, KeyBound::Excluded(5))), vec![0, 1, 2, 3, 4]);
    assert_eq!(keys_of(tree.range(KeyBound::Unbounded, KeyBound::Unbounded)), (0..10).collect::<Vec<i32>>());
    assert_eq!(keys_of(tree.range(KeyBound::Excluded(3), KeyBound::Excluded(7))), vec![4, 5, 6]);
    assert_eq!(keys_of(tree.items_range(Some(&2), Some(&4))), vec![2, 3]);
    assert_eq!(keys_of(tree.items_range(None, None)).len(), 10);
}

#[test]
fn range_across_many_leaves() {
    let mut tree = BPlusTreeMap::new(4).unwrap();
    for i in 0..300 {
        tree.insert(i * 2, i);
    }
    let got = keys_of(tree.range(KeyBound::Included(101), KeyBound::Included(201)));
    let want: Vec<i32> = (51..=100).map(|i| i * 2).collect();
    assert_eq!(got, want);
    assert_eq!(tree.estimate_range_size(KeyBound::Unbounded, KeyBound::Unbounded), 300);
    assert_eq!(tree.estimate_range_size(KeyBound::Included(0), KeyBound::Unbounded), 75);
    assert!(tree.optimize_range_query(KeyBound::Included(10), KeyBound::Unbounded).is_some());
}

#[test]
fn range_excluded_start_missing_from_tree() {
    let mut tree = BPlusTreeMap::new(4).unwrap();
    tree.insert(4, 40);
    tree.insert(6, 60);
    tree.insert(7, 70);
    assert_eq!(keys_of(tree.range(KeyBound::Excluded(5), KeyBound::Unbounded)), vec![6, 7]);
    assert_eq!(keys_of(tree.range(KeyBound::Excluded(4), KeyBound::Unbounded)), vec![6, 7]);
    assert_eq!(keys_of(tree.range(KeyBound::Excluded(3), KeyBound::Included(6))), vec![4, 6]);
    let mut big = BPlusTreeMap::new(4).unwrap();
    for i in 0..40 {
        big.insert(i * 2, i);
    }
    assert_eq!(keys_of(big.range(KeyBound::Excluded(13), KeyBound::Excluded(20))), vec![14, 16, 18]);
    assert_eq!(keys_of(big.range(KeyBound::Excluded(14), KeyBound::Excluded(20))), vec![16, 18]);
}
