use lib::optimized_arena::OptimizedArena;
use lib::NULL_NODE;
use std::mem;

#[test]
fn optimized_arena_test_size_optimization() {
    let arena_size = mem::size_of::<OptimizedArena<i32>>();
    assert!(arena_size <= 48);
    println!("OptimizedArena<i32> size: {} bytes", arena_size);
}

#[test]
fn test_basic_allocation() {
    let mut arena = OptimizedArena::new();
    let id1 = arena.allocate(42);
    let id2 = arena.allocate(84);
    assert_eq!(arena.len(), 2);
    assert_eq!(arena.get(id1), Some(&42));
    assert_eq!(arena.get(id2), Some(&84));
}

#[test]
fn test_deallocation() {
    let mut arena = OptimizedArena::new();
    let id = arena.allocate(42);
    assert_eq!(arena.len(), 1);
    assert!(arena.deallocate(id));
    assert_eq!(arena.len(), 0);
}

#[test]
fn optimized_arena_test_get_mut() {
    let mut arena = OptimizedArena::new();
    let id = arena.allocate(42);
    if let Some(value) = arena.get_mut(id) {
        *value = 84;
    }
    assert_eq!(arena.get(id), Some(&84));
}

#[test]
fn test_invalid_id() {
    let arena = OptimizedArena::<i32>::new();
    assert_eq!(arena.get(999), None);
    assert_eq!(arena.get(NULL_NODE), None);
}

#[test]
fn optimized_arena_test_clear() {
    let mut arena = OptimizedArena::new();
    let _id1 = arena.allocate(1);
    let _id2 = arena.allocate(2);
    assert_eq!(arena.len(), 2);
    arena.clear();
    assert_eq!(arena.len(), 0);
    assert!(arena.is_empty());
}

#[test]
fn deallocate_outside_the_arena_is_refused() {
    let mut arena = OptimizedArena::with_capacity(4);
    assert!(arena.capacity() >= 4);
    let id = arena.allocate(7);
    assert_eq!(id, 0);
    assert!(!arena.deallocate(5));
    assert_eq!(arena.len(), 1);
    assert!(arena.deallocate(0));
    assert!(arena.deallocate(0));
    assert_eq!(arena.len(), 0);
    assert_eq!(arena.get(0), Some(&7));
}
