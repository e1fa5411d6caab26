use lib::BPlusTreeMap;

#[test]
fn get_operations_test_get_mut() {
    let mut tree = BPlusTreeMap::new(4).unwrap();
    tree.insert(1, "one");

    if let Some(value) = tree.get_mut(&1) {
        *value = "ONE";
    }
    assert_eq!(tree.get(&1), Some(&"ONE"));

    assert_eq!(tree.get_mut(&2), None);
}

#[test]
fn get_mut_across_leaves() {
    let mut tree = BPlusTreeMap::new(4).unwrap();
    for i in 0..50 {
        tree.insert(i, i);
    }
    for i in 0..50 {
        if let Some(v) = tree.get_mut(&i) {
            *v = i * 2;
        }
    }
    for i in 0..50 {
        assert_eq!(tree.get(&i), Some(&(i * 2)));
    }
    assert_eq!(tree.len(), 50);
}
