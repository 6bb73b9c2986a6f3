use burrow::collect::{map_keys, set_items};
use burrow::setmap::SetMap;
use burrow::sorted::{comes_before, insert_in_order};
use std::collections::{HashMap, HashSet};

#[test]
fn set_items_lists_each_item_once() {
    let mut set: HashSet<u128> = HashSet::new();
    assert!(set_items(&set).is_empty());
    for item in [5u128, 1, 9, 5, 1] {
        set.insert(item);
    }
    let mut items = set_items(&set);
    items.sort();
    assert_eq!(items, vec![1, 5, 9]);
}

#[test]
fn map_keys_lists_each_key_once() {
    let mut map: HashMap<u64, &str> = HashMap::new();
    assert!(map_keys(&map).is_empty());
    map.insert(3, "c");
    map.insert(1, "a");
    map.insert(3, "again");
    let mut keys = map_keys(&map);
    keys.sort();
    assert_eq!(keys, vec![1, 3]);
}

#[test]
fn keys_are_ordered_by_counter_then_identifier() {
    assert!(comes_before((1, 9), (2, 0)));
    assert!(comes_before((2, 3), (2, 4)));
    assert!(!comes_before((2, 4), (2, 4)));
    assert!(!comes_before((2, 5), (2, 4)));
    assert!(!comes_before((3, 0), (2, 4)));
}

#[test]
fn insert_in_order_keeps_order_and_skips_what_is_there() {
    let mut keys: Vec<(u64, u128)> = Vec::new();
    for key in [(2, 7), (1, 9), (2, 3), (1, 9), (3, 0), (0, 0), (2, 7)] {
        insert_in_order(&mut keys, key);
    }
    assert_eq!(keys, vec![(0, 0), (1, 9), (2, 3), (2, 7), (3, 0)]);
}

#[test]
fn set_map_keeps_no_empty_set() {
    let mut map: SetMap<u64> = SetMap::new();
    assert!(map.is_empty());
    map.insert(1, 10);
    map.insert(1, 11);
    map.insert(2, 20);
    assert_eq!(map.len(), 2);
    assert!(map.contains_key(&1));
    let mut items = map.items(&1);
    items.sort();
    assert_eq!(items, vec![10, 11]);
    assert!(map.items(&3).is_empty());
    map.remove_item(&1, 10);
    assert_eq!(map.items(&1), vec![11]);
    map.remove_item(&1, 11);
    assert!(!map.contains_key(&1));
    assert!(map.get(&1).is_none());
    assert_eq!(map.keys(), vec![2]);
    map.remove_key(&2);
    assert!(map.is_empty());

    let mut other: SetMap<u64> = SetMap::new();
    other.insert(7, 70);
    map.insert(7, 71);
    map.merge(&other);
    let mut items = map.items(&7);
    items.sort();
    assert_eq!(items, vec![70, 71]);
    let copy = map.clone();
    map.clear();
    assert!(map.is_empty());
    assert_eq!(copy.len(), 1);
    assert!(SetMap::<u64>::default().is_empty());
}

#[test]
fn in_order_sorts_and_drops_repeats() {
    assert_eq!(burrow::sorted::in_order(&vec![5, 1, 9, 5, 1, 0]), vec![0, 1, 5, 9]);
    assert!(burrow::sorted::in_order(&vec![]).is_empty());
    assert_eq!(burrow::sorted::in_order(&vec![u128::MAX, 7]), vec![7, u128::MAX]);
}

#[test]
fn vector_clock_entries_stand_in_the_order_of_the_peers() {
    let mut clock = burrow::vector_clock::VectorClock::new();
    assert!(clock.entries().is_empty());
    clock.clocks.insert(30, 3);
    clock.clocks.insert(10, 1);
    clock.clocks.insert(20, 0);
    assert_eq!(clock.entries(), vec![(10, 1), (20, 0), (30, 3)]);
}

#[test]
fn set_entries_stand_in_order_with_their_tags() {
    let mut set: burrow::crdt::ORSet<u128> = burrow::crdt::ORSet::new();
    assert!(set.entries().is_empty());
    set.add_with_tag(7, 300);
    set.add_with_tag(3, 50);
    set.add_with_tag(7, 100);
    set.add_with_tag(7, 200);
    set.add_with_tag(9, 1);
    set.remove(&9);
    assert_eq!(set.entries(), vec![(3, vec![50]), (7, vec![100, 200, 300])]);
}

#[test]
fn message_ids_and_their_numbers() {
    let ids = vec![burrow::ids::MessageId(4), burrow::ids::MessageId(2)];
    assert_eq!(burrow::ids::MessageId::numbers_of(&ids), vec![4, 2]);
    assert_eq!(burrow::ids::MessageId::clone_all(&ids), ids);
}
