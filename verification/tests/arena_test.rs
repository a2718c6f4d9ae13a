use asyncband::internal::arena::Arena;
use asyncband::internal::arena::ArenaKey;

#[test]
fn removed_slots_are_reused() {
    let mut arena = Arena::new();
    let first = arena.insert("first");
    let second = arena.insert("second");

    assert_eq!(arena.remove(first), "first");
    let replacement = arena.insert("replacement");

    assert_eq!(replacement, first);
    assert_eq!(arena.get(replacement), Some(&"replacement"));
    assert_eq!(arena.get(second), Some(&"second"));
}

#[test]
fn take_all_restarts_key_allocation() {
    let mut arena = Arena::with_capacity(3);
    let first = arena.insert(1);
    let second = arena.insert(2);
    let third = arena.insert(3);
    let capacity = arena.capacity();
    arena.remove(second);

    assert_eq!(arena.take_all().into_iter().collect::<Vec<_>>(), vec![1, 3]);
    assert_eq!(arena.len(), 0);
    assert_eq!(arena.capacity(), capacity);

    let keys = [arena.insert(4), arena.insert(5), arena.insert(6)];
    assert_eq!(keys, [first, second, third]);
}

#[test]
fn capacity_has_room_for_the_slots() {
    let mut arena = Arena::with_capacity(8);
    assert!(arena.capacity() >= 8);
    for value in 0..100 {
        arena.insert(value);
    }
    assert!(arena.capacity() >= 100);
}

#[test]
fn vacated_slots_are_reused_last_in_first_out() {
    let mut arena = Arena::new();
    let keys = [arena.insert(0), arena.insert(1), arena.insert(2), arena.insert(3)];
    arena.remove(keys[0]);
    arena.remove(keys[2]);
    arena.remove(keys[1]);

    assert_eq!(arena.insert(10), keys[1]);
    assert_eq!(arena.insert(11), keys[2]);
    assert_eq!(arena.insert(12), keys[0]);
    let fresh = arena.insert(13);
    assert!(!keys.contains(&fresh));
    assert_eq!(arena.slot_count(), 5);
    assert_eq!(arena.values(), vec![&12, &10, &11, &3, &13]);
}

#[test]
fn vacant_and_unknown_keys_hold_nothing() {
    let mut arena: Arena<u8> = Arena::new();
    assert!(arena.is_empty());
    let key = arena.insert(7);
    assert!(!arena.is_empty());
    assert_eq!(arena.len(), 1);

    *arena.get_mut(key).unwrap() = 8;
    assert_eq!(arena.get(key), Some(&8));
    assert_eq!(arena.value_at(0), Some(&8));

    assert_eq!(arena.remove(key), 8);
    assert_eq!(arena.get(key), None);
    assert_eq!(arena.get_mut(key), None);
    assert_eq!(arena.value_at(0), None);
    assert_eq!(arena.get(ArenaKey::decode(100)), None);
    assert_eq!(arena.get_mut(ArenaKey::decode(100)), None);
    assert_eq!(arena.slot_count(), 1);
    assert!(arena.values().is_empty());
}

#[test]
fn keys_survive_encoding() {
    let mut arena = Arena::new();
    let first = arena.insert('a');
    let second = arena.insert('b');
    assert_eq!(first.encode(), 1);
    assert_eq!(second.encode(), 2);
    assert_eq!(ArenaKey::decode(first.encode()), first);
    assert_eq!(ArenaKey::decode(second.encode()), second);
}

#[test]
fn taken_values_come_in_slot_order() {
    let mut arena: Arena<u32> = Arena::new();
    assert_eq!(arena.take_all().into_vec(), vec![]);

    arena.insert(5);
    assert_eq!(arena.take_all().into_vec(), vec![5]);

    let first = arena.insert(1);
    arena.insert(2);
    arena.insert(3);
    arena.remove(first);
    arena.insert(4);
    assert_eq!(arena.take_all().into_vec(), vec![4, 2, 3]);
    assert!(arena.is_empty());
}
