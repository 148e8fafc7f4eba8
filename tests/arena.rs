use actorcore::arena::{ActorKey, Arena};

#[test]
fn inserted_values_are_found_under_their_keys() {
    let mut arena: Arena<&str> = Arena::new();
    let a = arena.insert("a");
    let b = arena.insert("b");
    assert_ne!(a, b);
    assert_eq!(arena.get(a), Some(&"a"));
    assert_eq!(arena.get(b), Some(&"b"));
    assert!(arena.contains_key(a));
}

#[test]
fn removed_key_is_stale_even_after_slot_reuse() {
    let mut arena: Arena<u32> = Arena::new();
    let a = arena.insert(1);
    assert_eq!(arena.remove(a), Some(1));
    assert_eq!(arena.remove(a), None);
    let b = arena.insert(2);
    assert_eq!(b.index, a.index);
    assert_eq!(b.generation, a.generation + 1);
    assert_eq!(arena.get(a), None);
    assert!(!arena.contains_key(a));
    assert_eq!(arena.get(b), Some(&2));
}

#[test]
fn get_mut_changes_the_value_in_place() {
    let mut arena: Arena<Vec<u32>> = Arena::new();
    let k = arena.insert(vec![1]);
    arena.get_mut(k).push(2);
    assert_eq!(arena.get(k), Some(&vec![1, 2]));
}

#[test]
fn unknown_key_is_absent() {
    let arena: Arena<u32> = Arena::new();
    let k = ActorKey { index: 3, generation: 0 };
    assert_eq!(arena.get(k), None);
    assert!(!arena.contains_key(k));
}
