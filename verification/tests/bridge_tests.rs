//! Behavioural tests of the bridge: lifecycle, handle allocation, event
//! delivery, stale-handle safety, and the stub contracts.

use wayland_bridge::bridge::Bridge;
use wayland_bridge::bridge::ConnectOutcome;
use wayland_bridge::bridge::DispatchOutcome;
use wayland_bridge::bridge::get_version;
use wayland_bridge::errors::WaylandError;
use wayland_bridge::globals::GlobalEntry;
use wayland_bridge::globals::RegistryEvent;

fn announce(name: u32, interface: &str, version: u32) -> RegistryEvent {
    RegistryEvent::Announce { name, interface: interface.to_string(), version }
}

fn retract(name: u32) -> RegistryEvent {
    RegistryEvent::Retract { name }
}

fn clone_events(evs: &[RegistryEvent]) -> Vec<RegistryEvent> {
    evs.iter()
        .map(|ev| match ev {
            RegistryEvent::Announce { name, interface, version } => RegistryEvent::Announce {
                name: *name,
                interface: interface.clone(),
                version: *version,
            },
            RegistryEvent::Retract { name } => RegistryEvent::Retract { name: *name },
        })
        .collect()
}

fn as_sorted_tuples(entries: Vec<GlobalEntry>) -> Vec<(u32, String, u32)> {
    let mut v: Vec<(u32, String, u32)> = entries
        .into_iter()
        .map(|e| (e.name, e.interface, e.version))
        .collect();
    v.sort();
    v
}

fn connect_with(bridge: &mut Bridge, fd: i32, initial: Vec<RegistryEvent>) -> u32 {
    assert!(bridge.can_allocate());
    bridge
        .connect(ConnectOutcome::Established { fd, initial_events: initial })
        .expect("connect with an established outcome must succeed")
}

#[test]
fn connect_issues_handle_and_is_connected() {
    let mut b = Bridge::new();
    let h = connect_with(&mut b, 7, vec![announce(1, "wl_compositor", 4)]);
    assert!(b.is_connected(h));
    assert_eq!(b.get_descriptor(h), Ok(7));
}

#[test]
fn connect_failure_reports_connection_failed() {
    let mut b = Bridge::new();
    assert!(b.can_allocate());
    let r = b.connect(ConnectOutcome::EndpointUnreachable {
        message: "no socket".to_string(),
    });
    assert_eq!(r, Err(WaylandError::ConnectionFailed("no socket".to_string())));
    assert!(!b.is_connected(1));
}

#[test]
fn connect_setup_failure_reports_protocol_error() {
    let mut b = Bridge::new();
    assert!(b.can_allocate());
    let r = b.connect(ConnectOutcome::SetupFailed { message: "bad reply".to_string() });
    assert_eq!(r, Err(WaylandError::ProtocolError("bad reply".to_string())));
    assert!(!b.is_connected(1));
}

#[test]
fn disconnect_twice_succeeds_both_times() {
    let mut b = Bridge::new();
    let h = connect_with(&mut b, 3, vec![]);
    assert!(b.is_connected(h));
    b.disconnect(h);
    assert!(!b.is_connected(h));
    b.disconnect(h);
    assert!(!b.is_connected(h));
}

#[test]
fn sequential_handles_are_pairwise_distinct() {
    let mut b = Bridge::new();
    let mut handles: Vec<u32> = Vec::new();
    for _ in 0..64 {
        assert!(b.can_allocate());
        handles.push(b.get_next_id());
    }
    for i in 0..handles.len() {
        for j in 0..handles.len() {
            if i != j {
                assert_ne!(handles[i], handles[j]);
            }
        }
    }
}

#[test]
fn stale_handle_reports_resource_not_found_everywhere() {
    let mut b = Bridge::new();
    let h = connect_with(&mut b, 9, vec![announce(1, "wl_compositor", 4)]);
    b.disconnect(h);
    assert!(!b.is_connected(h));
    assert_eq!(b.get_descriptor(h), Err(WaylandError::ResourceNotFound));
    assert_eq!(
        b.flush_events(h, DispatchOutcome::Events { events: vec![] }),
        Err(WaylandError::ResourceNotFound)
    );
    assert_eq!(
        b.roundtrip(h, DispatchOutcome::Events { events: vec![announce(5, "wl_shm", 1)] }),
        Err(WaylandError::ResourceNotFound)
    );
    assert_eq!(
        b.flush_events(h, DispatchOutcome::Malformed { message: "x".to_string() }),
        Err(WaylandError::ResourceNotFound)
    );
    assert_eq!(b.get_registry(h), Err(WaylandError::ResourceNotFound));
}

#[test]
fn dispatch_failure_reports_protocol_error_and_keeps_connection() {
    let mut b = Bridge::new();
    let h = connect_with(&mut b, 4, vec![]);
    let r = b.flush_events(h, DispatchOutcome::Malformed { message: "truncated".to_string() });
    assert_eq!(r, Err(WaylandError::ProtocolError("truncated".to_string())));
    // the connection is left in the table; the caller decides what to do
    assert!(b.is_connected(h));
    assert_eq!(b.get_descriptor(h), Ok(4));
}

#[test]
fn registry_snapshot_is_warm_after_connect() {
    let mut b = Bridge::new();
    let h = connect_with(
        &mut b,
        5,
        vec![announce(1, "wl_compositor", 4), announce(2, "wl_shm", 1)],
    );
    let rh = b.get_registry(h).expect("get_registry on a live handle");
    let listed = b.list_globals(rh).expect("list_globals on a live registry");
    assert!(!listed.is_empty());
    assert_eq!(
        as_sorted_tuples(listed),
        vec![
            (1, "wl_compositor".to_string(), 4),
            (2, "wl_shm".to_string(), 1),
        ]
    );
}

#[test]
fn end_to_end_retract_is_visible_after_roundtrip() {
    let mut b = Bridge::new();
    let h = connect_with(
        &mut b,
        5,
        vec![announce(1, "wl_compositor", 4), announce(2, "wl_shm", 1)],
    );
    let rh = b.get_registry(h).expect("get_registry on a live handle");
    let r = b.roundtrip(h, DispatchOutcome::Events { events: vec![retract(2)] });
    assert_eq!(r, Ok(1));
    let listed = b.list_globals(rh).expect("list_globals on a live registry");
    assert_eq!(
        as_sorted_tuples(listed),
        vec![(1, "wl_compositor".to_string(), 4)]
    );
}

#[test]
fn announce_then_retract_leaves_no_entry() {
    let mut b = Bridge::new();
    let h = connect_with(&mut b, 2, vec![]);
    let rh = b.get_registry(h).expect("get_registry on a live handle");
    let r = b.flush_events(
        h,
        DispatchOutcome::Events { events: vec![announce(42, "wl_output", 3), retract(42)] },
    );
    assert_eq!(r, Ok(2));
    let listed = b.list_globals(rh).expect("list_globals on a live registry");
    assert!(listed.iter().all(|e| e.name != 42));
    assert!(listed.is_empty());
}

#[test]
fn retract_without_announcement_is_tolerated() {
    let mut b = Bridge::new();
    let h = connect_with(&mut b, 2, vec![announce(1, "wl_compositor", 4)]);
    let rh = b.get_registry(h).expect("get_registry on a live handle");
    let before = as_sorted_tuples(b.list_globals(rh).unwrap());
    let r = b.flush_events(h, DispatchOutcome::Events { events: vec![retract(99)] });
    assert_eq!(r, Ok(1));
    let after = as_sorted_tuples(b.list_globals(rh).unwrap());
    assert_eq!(before, after);
}

#[test]
fn announce_overwrites_entry_for_same_name() {
    let mut b = Bridge::new();
    let h = connect_with(&mut b, 2, vec![announce(1, "wl_compositor", 4)]);
    let rh = b.get_registry(h).unwrap();
    let r = b.flush_events(
        h,
        DispatchOutcome::Events { events: vec![announce(1, "wl_compositor", 5)] },
    );
    assert_eq!(r, Ok(1));
    let listed = b.list_globals(rh).unwrap();
    assert_eq!(listed.len(), 1);
    assert_eq!(listed[0].name, 1);
    assert_eq!(listed[0].interface, "wl_compositor");
    assert_eq!(listed[0].version, 5);
}

#[test]
fn serialized_delivery_composes_like_one_batch() {
    // Two operations whose serialization the per-queue guard enforces:
    // delivering their batches one after the other equals delivering the
    // concatenation, in whichever serial order the guard admitted.
    let e1 = vec![announce(1, "wl_compositor", 4)];
    let e2 = vec![announce(2, "wl_shm", 1), retract(1)];

    let mut serial = Bridge::new();
    let hs = connect_with(&mut serial, 1, vec![]);
    let rs = serial.get_registry(hs).unwrap();
    assert_eq!(
        serial.roundtrip(hs, DispatchOutcome::Events { events: clone_events(&e1) }),
        Ok(1)
    );
    assert_eq!(
        serial.flush_events(hs, DispatchOutcome::Events { events: clone_events(&e2) }),
        Ok(2)
    );

    let mut batched = Bridge::new();
    let hb = connect_with(&mut batched, 1, vec![]);
    let rb = batched.get_registry(hb).unwrap();
    let mut both = clone_events(&e1);
    both.extend(clone_events(&e2));
    assert_eq!(
        batched.roundtrip(hb, DispatchOutcome::Events { events: both }),
        Ok(3)
    );

    assert_eq!(
        as_sorted_tuples(serial.list_globals(rs).unwrap()),
        as_sorted_tuples(batched.list_globals(rb).unwrap())
    );
}

#[test]
fn bind_global_is_unimplemented() {
    let mut b = Bridge::new();
    let h = connect_with(&mut b, 2, vec![announce(1, "wl_compositor", 4)]);
    let rh = b.get_registry(h).unwrap();
    let r = b.bind_global(rh, 1, "wl_compositor".to_string(), 4);
    assert_eq!(r, Err(WaylandError::Unimplemented));
}

#[test]
fn create_surface_is_unimplemented() {
    let mut b = Bridge::new();
    let h = connect_with(&mut b, 2, vec![announce(1, "wl_compositor", 4)]);
    let r = b.create_surface(h);
    assert_eq!(r, Err(WaylandError::Unimplemented));
}

#[test]
fn surface_stubs_do_not_fabricate_success() {
    let b = Bridge::new();
    assert_eq!(b.destroy_surface(10), Err(WaylandError::Unimplemented));
    assert_eq!(b.surface_attach(10, None, 0, 0), Err(WaylandError::Unimplemented));
    assert_eq!(b.surface_damage(10, 0, 0, 64, 64), Err(WaylandError::Unimplemented));
    assert_eq!(b.surface_commit(10), Err(WaylandError::Unimplemented));
    assert_eq!(b.surface_set_input_region(10, None), Err(WaylandError::Unimplemented));
    assert_eq!(b.surface_set_opaque_region(10, Some(3)), Err(WaylandError::Unimplemented));
}

#[test]
fn buffer_and_region_stubs_do_not_fabricate_success() {
    let b = Bridge::new();
    assert_eq!(b.create_shm_pool(1, 4096), Err(WaylandError::Unimplemented));
    assert_eq!(b.create_buffer(1, 0, 64, 64, 256, 0), Err(WaylandError::Unimplemented));
    assert_eq!(b.create_region(1), Err(WaylandError::Unimplemented));
    assert_eq!(b.region_add(1, 0, 0, 8, 8), Err(WaylandError::Unimplemented));
    assert_eq!(b.region_subtract(1, 0, 0, 4, 4), Err(WaylandError::Unimplemented));
}

#[test]
fn list_globals_on_stale_registry_handle_fails() {
    let b = Bridge::new();
    assert_eq!(b.list_globals(77), Err(WaylandError::ResourceNotFound));
}

#[test]
fn registries_on_different_connections_are_independent() {
    let mut b = Bridge::new();
    let h1 = connect_with(&mut b, 1, vec![announce(1, "wl_compositor", 4)]);
    let h2 = connect_with(&mut b, 2, vec![announce(9, "wl_seat", 2)]);
    let r1 = b.get_registry(h1).unwrap();
    let r2 = b.get_registry(h2).unwrap();
    assert_eq!(
        b.flush_events(h1, DispatchOutcome::Events { events: vec![retract(1)] }),
        Ok(1)
    );
    assert!(b.list_globals(r1).unwrap().is_empty());
    assert_eq!(
        as_sorted_tuples(b.list_globals(r2).unwrap()),
        vec![(9, "wl_seat".to_string(), 2)]
    );
}

#[test]
fn version_string_is_stable() {
    assert_eq!(get_version(), "0.1.0");
}
