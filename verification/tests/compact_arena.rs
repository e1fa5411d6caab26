use lib::compact_arena::CompactArena;
use lib::NULL_NODE;

#[test]
fn test_compact_arena_basic_operations() {
    let mut arena = CompactArena::new();

    let id1 = arena.allocate(42);
    let id2 = arena.allocate(84);
    let id3 = arena.allocate(126);

    assert_eq!(arena.get(id1), Some(&42));
    assert_eq!(arena.get(id2), Some(&84));
    assert_eq!(arena.get(id3), Some(&126));

    assert!(arena.contains(id1));
    assert!(arena.contains(id2));
    assert!(arena.contains(id3));
    assert!(!arena.contains(NULL_NODE));

    assert_eq!(arena.allocated_count(), 3);
    assert_eq!(arena.free_count(), 0);
}

#[test]
fn test_compact_arena_with_default() {
    let mut arena: CompactArena<i32> = CompactArena::new();

    let id1 = arena.allocate(42);
    let id2 = arena.allocate(84);

    let removed = arena.deallocate_with_default(id1);
    assert_eq!(removed, Some(42));
    assert!(!arena.contains(id1));
    assert!(arena.contains(id2));

    let id3 = arena.allocate(168);
    assert_eq!(arena.get(id3), Some(&168));

    assert_eq!(arena.allocated_count(), 2);
    assert_eq!(arena.free_count(), 0);
}

#[test]
fn compact_arena_compact_renumbers_live_items() {
    let mut arena: CompactArena<i32> = CompactArena::new();
    let a = arena.allocate(1);
    let b = arena.allocate(2);
    let _c = arena.allocate(3);
    assert_eq!(arena.deallocate(b), Some(2));
    assert_eq!(arena.free_count(), 1);
    arena.compact();
    assert_eq!(arena.free_count(), 0);
    assert_eq!(arena.allocated_count(), 2);
    assert_eq!(arena.get(a), Some(&1));
    assert_eq!(arena.get(1), Some(&3));
    assert_eq!(arena.get(2), None);
}
