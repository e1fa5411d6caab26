use lib::arena::Arena;

#[test]
fn test_arena_basic_operations() {
    let mut arena: Arena<String> = Arena::new();
    let id1 = arena.allocate("first".to_string());
    let id2 = arena.allocate("second".to_string());
    assert_eq!(arena.allocated_count(), 2);
    assert_eq!(arena.total_capacity(), 2);
    assert_eq!(arena.get(id1), Some(&"first".to_string()));
    assert_eq!(arena.get(id2), Some(&"second".to_string()));
    let item = arena.deallocate(id1);
    assert_eq!(item, Some("first".to_string()));
    assert_eq!(arena.allocated_count(), 1);
    assert_eq!(arena.free_count(), 1);
    assert_eq!(arena.get(id1), None);
    let id3 = arena.allocate("third".to_string());
    assert_eq!(id3, id1);
    assert_eq!(arena.get(id3), Some(&"third".to_string()));
}

#[test]
fn test_arena_iteration() {
    let mut arena: Arena<String> = Arena::new();
    let id1 = arena.allocate("first".to_string());
    let id2 = arena.allocate("second".to_string());
    let id3 = arena.allocate("third".to_string());
    arena.deallocate(id2);
    let items: Vec<_> = arena.values();
    assert_eq!(items.len(), 2);
    assert!(items.contains(&&"first".to_string()));
    assert!(items.contains(&&"third".to_string()));
    let items_with_ids: Vec<_> = arena.iter();
    assert_eq!(items_with_ids.len(), 2);
    assert!(items_with_ids.contains(&(id1, &"first".to_string())));
    assert!(items_with_ids.contains(&(id3, &"third".to_string())));
}

#[test]
fn test_arena_compaction() {
    let mut arena: Arena<i32> = Arena::new();
    let _id1 = arena.allocate(1);
    let _id2 = arena.allocate(2);
    let _id3 = arena.allocate(3);
    let _id4 = arena.allocate(4);
    let _id5 = arena.allocate(5);
    arena.deallocate(_id4);
    arena.deallocate(_id5);
    assert_eq!(arena.total_capacity(), 5);
    arena.compact();
    assert_eq!(arena.total_capacity(), 3);
    assert_eq!(arena.allocated_count(), 3);
}

#[test]
fn arena_validate_and_free_slots() {
    let mut arena: Arena<i32> = Arena::new();
    assert!(arena.validate().is_ok());
    assert!(arena.is_empty());
    let a = arena.allocate(42);
    let _b = arena.allocate(84);
    assert!(arena.validate().is_ok());
    assert_eq!(arena.deallocate(a), Some(42));
    assert_eq!(arena.deallocate(a), None);
    assert!(arena.validate().is_ok());
    assert_eq!(arena.free_count(), 1);
    assert!(arena.contains(1));
    assert!(!arena.contains(0));
    assert!(!arena.contains(lib::NULL_NODE));
    assert_eq!(arena.available_capacity(), 1001);
    if let Some(v) = arena.get_mut(1) {
        *v = 85;
    }
    assert_eq!(arena.get(1), Some(&85));
    arena.shrink_to_fit();
    assert_eq!(arena.total_capacity(), 2);
    arena.clear();
    assert_eq!(arena.total_capacity(), 0);
    assert_eq!(arena.free_count(), 0);
}

#[test]
fn test_arena_validation() {
    let mut arena: Arena<i32> = Arena::new();

    assert!(arena.validate().is_ok());

    let id1 = arena.allocate(42);
    let _id2 = arena.allocate(84);
    assert!(arena.validate().is_ok());

    arena.deallocate(id1);
    assert!(arena.validate().is_ok());

    assert_eq!(arena.allocated_count(), 1);
    assert_eq!(arena.free_count(), 1);
}

#[test]
fn arena_allocated_count_tracks_items() {
    let mut arena: Arena<i32> = Arena::new();
    assert!(arena.is_empty());
    let a = arena.allocate(1);
    let _b = arena.allocate(2);
    let _c = arena.allocate(3);
    assert_eq!(arena.allocated_count(), 3);
    arena.deallocate(a);
    assert_eq!(arena.allocated_count(), 2);
    assert!(!arena.is_empty());
}
