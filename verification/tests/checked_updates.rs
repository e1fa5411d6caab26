use lib::{BPlusTreeError, BPlusTreeMap};

#[test]
fn try_insert_and_try_remove_on_a_sound_tree() {
    let mut tree = BPlusTreeMap::new(4).unwrap();
    for i in 0..20 {
        assert_eq!(tree.try_insert(i, i * 10).unwrap(), None);
    }
    assert_eq!(tree.try_insert(5, 55).unwrap(), Some(50));
    assert_eq!(tree.get(&5), Some(&55));
    assert_eq!(tree.try_remove(&5).unwrap(), 55);
    assert_eq!(tree.get(&5), None);
    assert!(matches!(tree.try_remove(&5), Err(BPlusTreeError::KeyNotFound)));
    assert_eq!(tree.len(), 19);
    assert!(tree.validate().is_ok());
}

#[test]
fn batch_insert_reports_replaced_values() {
    let mut tree = BPlusTreeMap::new(4).unwrap();
    tree.insert(2, 200);
    let results = tree.batch_insert(vec![(1, 10), (2, 20), (3, 30), (1, 11)]).unwrap();
    assert_eq!(results, vec![None, Some(200), None, Some(10)]);
    assert_eq!(tree.get(&1), Some(&11));
    assert_eq!(tree.get(&2), Some(&20));
    assert_eq!(tree.get(&3), Some(&30));
    assert_eq!(tree.len(), 3);
}

#[test]
fn batch_insert_of_nothing_changes_nothing() {
    let mut tree: BPlusTreeMap<i32, i32> = BPlusTreeMap::new(4).unwrap();
    tree.insert(1, 1);
    let results = tree.batch_insert(Vec::new()).unwrap();
    assert!(results.is_empty());
    assert_eq!(tree.len(), 1);
}

#[test]
fn batch_insert_many_keys() {
    let mut tree = BPlusTreeMap::new(5).unwrap();
    let items: Vec<(i32, i32)> = (0..200).map(|i| (i, i + 1)).collect();
    let results = tree.batch_insert(items).unwrap();
    assert_eq!(results.len(), 200);
    assert!(results.iter().all(|r| r.is_none()));
    for i in 0..200 {
        assert_eq!(tree.get(&i), Some(&(i + 1)));
    }
    assert!(tree.check_invariants());
}

#[test]
fn detailed_check_passes_after_every_operation() {
    let mut tree = BPlusTreeMap::new(4).unwrap();
    for i in 0..60 {
        tree.insert((i * 37) % 101, i);
        assert_eq!(tree.check_invariants_detailed(), Ok(()));
    }
    for i in 0..60 {
        if i % 3 != 0 {
            assert!(tree.remove(&((i * 37) % 101)).is_some());
            assert_eq!(tree.check_invariants_detailed(), Ok(()));
        }
    }
    assert_eq!(tree.len(), 20);
    let results = tree.batch_insert(vec![(500, 1), (0, 2), (501, 3)]).unwrap();
    assert_eq!(results, vec![None, Some(0), None]);
    assert_eq!(tree.check_invariants_detailed(), Ok(()));
    assert_eq!(tree.try_remove(&500).unwrap(), 1);
    assert_eq!(tree.check_invariants_detailed(), Ok(()));
    assert!(tree.validate().is_ok());
}

#[test]
fn leaf_sizes_add_up_to_len_and_first_is_smallest() {
    let mut tree = BPlusTreeMap::new(4).unwrap();
    for i in (0..50).rev() {
        tree.insert(i * 2, i);
    }
    let total: usize = tree.leaf_sizes().iter().sum();
    assert_eq!(total, tree.len());
    assert_eq!(tree.slice().len(), tree.len());
    assert_eq!(tree.first(), Some((&0, &0)));
    let mut it = tree.items();
    assert_eq!(tree.first(), it.next());
}
