//! Tests of the handle table in isolation: the store that owns every
//! bridged resource behind an opaque integer handle.

use wayland_bridge::table::HandleTable;

#[test]
fn new_table_holds_nothing() {
    let t: HandleTable<u32> = HandleTable::new();
    assert!(!t.contains_key(1));
    assert!(t.get(1).is_none());
    assert!(t.handles().is_empty());
}

#[test]
fn insert_then_get_returns_the_value() {
    let mut t: HandleTable<u32> = HandleTable::new();
    t.insert(1, 10);
    t.insert(2, 20);
    assert!(t.contains_key(1));
    assert!(t.contains_key(2));
    assert_eq!(t.get(1), Some(&10));
    assert_eq!(t.get(2), Some(&20));
    assert!(t.get(3).is_none());
}

#[test]
fn replace_repoints_exactly_one_handle() {
    let mut t: HandleTable<u32> = HandleTable::new();
    t.insert(1, 10);
    t.insert(2, 20);
    t.replace(1, 11);
    assert_eq!(t.get(1), Some(&11));
    assert_eq!(t.get(2), Some(&20));
}

#[test]
fn remove_returns_the_value_and_forgets_the_handle() {
    let mut t: HandleTable<u32> = HandleTable::new();
    t.insert(1, 10);
    t.insert(2, 20);
    assert_eq!(t.remove(1), Some(10));
    assert!(!t.contains_key(1));
    assert_eq!(t.get(2), Some(&20));
    // removing an absent handle is an answer, not a failure
    assert_eq!(t.remove(1), None);
}

#[test]
fn handles_lists_every_live_handle_once() {
    let mut t: HandleTable<u32> = HandleTable::new();
    t.insert(3, 30);
    t.insert(1, 10);
    t.insert(2, 20);
    t.remove(1);
    let mut hs = t.handles();
    hs.sort();
    assert_eq!(hs, vec![2, 3]);
}
