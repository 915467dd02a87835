//! Tests of the globals snapshot in isolation: the dispatch callback's
//! insert/overwrite/remove decisions on announce and retract events.

use wayland_bridge::globals::GlobalEntry;
use wayland_bridge::globals::GlobalsSnapshot;
use wayland_bridge::globals::RegistryEvent;

fn announce(name: u32, interface: &str, version: u32) -> RegistryEvent {
    RegistryEvent::Announce { name, interface: interface.to_string(), version }
}

#[test]
fn new_snapshot_is_empty() {
    let s = GlobalsSnapshot::new();
    assert!(s.list().is_empty());
}

#[test]
fn announce_inserts_entry() {
    let mut s = GlobalsSnapshot::new();
    s.apply_event(announce(42, "wl_shm", 7));
    let listed = s.list();
    assert_eq!(
        listed,
        vec![GlobalEntry { name: 42, interface: "wl_shm".to_string(), version: 7 }]
    );
}

#[test]
fn announce_then_retract_leaves_snapshot_without_the_name() {
    let mut s = GlobalsSnapshot::new();
    s.apply_event(announce(42, "wl_shm", 7));
    s.apply_event(RegistryEvent::Retract { name: 42 });
    assert!(s.list().iter().all(|e| e.name != 42));
    assert!(s.list().is_empty());
}

#[test]
fn retract_of_unknown_name_changes_nothing() {
    let mut s = GlobalsSnapshot::new();
    s.apply_event(announce(1, "wl_compositor", 4));
    let before = s.list();
    s.apply_event(RegistryEvent::Retract { name: 42 });
    assert_eq!(s.list(), before);
}

#[test]
fn batch_applies_in_server_order() {
    let mut s = GlobalsSnapshot::new();
    let batch = vec![
        announce(1, "wl_compositor", 4),
        announce(2, "wl_shm", 1),
        announce(1, "wl_compositor", 5),
        RegistryEvent::Retract { name: 2 },
    ];
    s.apply_events(&batch);
    let listed = s.list();
    assert_eq!(listed.len(), 1);
    assert_eq!(listed[0].name, 1);
    assert_eq!(listed[0].version, 5);
}

#[test]
fn list_is_a_point_in_time_copy() {
    let mut s = GlobalsSnapshot::new();
    s.apply_event(announce(1, "wl_compositor", 4));
    let copy = s.list();
    s.apply_event(RegistryEvent::Retract { name: 1 });
    assert_eq!(copy.len(), 1);
    assert!(s.list().is_empty());
}

#[test]
fn duplicate_is_independent() {
    let mut s = GlobalsSnapshot::new();
    s.apply_event(announce(1, "wl_compositor", 4));
    let mut d = s.duplicate();
    d.apply_event(RegistryEvent::Retract { name: 1 });
    assert_eq!(s.list().len(), 1);
    assert!(d.list().is_empty());
}
