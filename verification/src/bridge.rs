//! The connection/resource bridge: owns every native protocol object behind
//! an opaque handle, serializes event delivery per connection, and mirrors
//! server-advertised globals into queryable snapshots.
//!
//! The bridge itself performs no I/O. The embedding that drives the native
//! connection reports what happened — a connection established with a
//! descriptor and an initial event burst, a batch of decoded registry
//! events, a decode failure — and the bridge makes every decision: handle
//! allocation, lifecycle, error classification, and snapshot updates. It is
//! an explicitly constructed object, not an ambient singleton, so isolated
//! instances can be built and driven directly.

use vstd::prelude::*;

use crate::errors::WaylandError;
use crate::globals::GlobalEntry;
use crate::globals::GlobalsSnapshot;
use crate::globals::RegistryEvent;
use crate::globals::apply_events_spec;
use crate::globals::lemma_announces_leave_nonempty;
use crate::globals::lemma_apply_events_concat;
use crate::table::HandleTable;

verus! {

/// One attached client session: the connection's raw I/O descriptor and
/// the snapshot its event queue keeps warm.
pub struct ConnectionState {
    pub fd: i32,
    pub globals: GlobalsSnapshot,
}

/// One bound registry: the connection it was bound on and its own snapshot
/// of that connection's advertised globals.
pub struct RegistryState {
    pub connection: u32,
    pub globals: GlobalsSnapshot,
}

/// What the native layer reports back from a connection attempt.
///
/// A successful attempt hands over the connection's raw descriptor and the
/// registry events observed during the initial blocking round-trip, so the
/// snapshot is warm before any handle is issued.
pub enum ConnectOutcome {
    Established { fd: i32, initial_events: Vec<RegistryEvent> },
    EndpointUnreachable { message: String },
    SetupFailed { message: String },
}

/// What the native layer reports back from driving an event queue: the
/// registry events it decoded, or a decode/dispatch failure.
pub enum DispatchOutcome {
    Events { events: Vec<RegistryEvent> },
    Malformed { message: String },
}

/// How a successful connect changes the bridge: a fresh handle maps to the
/// new connection, whose snapshot is the initial event burst applied to an
/// empty snapshot; nothing else moves.
pub open spec fn connect_established(
    pre: Bridge,
    post: Bridge,
    fd: i32,
    evs: Seq<RegistryEvent>,
    h: u32,
) -> bool {
    &&& h == pre.next_id()
    &&& post.next_id() == pre.next_id() + 1
    &&& post.connections().dom() == pre.connections().dom().insert(h)
    &&& post.connections()[h].fd == fd
    &&& post.connections()[h].globals@ == apply_events_spec(Seq::<GlobalEntry>::empty(), evs)
    &&& forall|k: u32|
        k != h && pre.connections().dom().contains(k) ==> post.connections()[k]
            == pre.connections()[k]
    &&& post.registries() == pre.registries()
}

/// How a disconnect changes the bridge: the handle leaves the connection
/// table — whether or not it was there — and nothing else moves.
pub open spec fn disconnect_post(pre: Bridge, post: Bridge, h: u32) -> bool {
    &&& post.connections() == pre.connections().remove(h)
    &&& post.registries() == pre.registries()
    &&& post.next_id() == pre.next_id()
}

/// How delivering a batch of events on connection `h` changes the bridge:
/// the connection's snapshot and the snapshot of every registry bound on
/// `h` advance by the batch, in server order; everything else stays.
pub open spec fn delivered(pre: Bridge, post: Bridge, h: u32, evs: Seq<RegistryEvent>) -> bool {
    &&& pre.connections().dom().contains(h)
    &&& post.next_id() == pre.next_id()
    &&& post.connections().dom() == pre.connections().dom()
    &&& post.connections()[h].fd == pre.connections()[h].fd
    &&& post.connections()[h].globals@ == apply_events_spec(pre.connections()[h].globals@, evs)
    &&& forall|k: u32|
        k != h && pre.connections().dom().contains(k) ==> post.connections()[k]
            == pre.connections()[k]
    &&& post.registries().dom() == pre.registries().dom()
    &&& forall|rk: u32| #[trigger]
        pre.registries().dom().contains(rk) ==> {
            let r0 = pre.registries()[rk];
            let r1 = post.registries()[rk];
            &&& r1.connection == r0.connection
            &&& if r0.connection == h {
                r1.globals@ == apply_events_spec(r0.globals@, evs)
            } else {
                r1 == r0
            }
        }
}

/// The full contract of one dispatch entry point (`flush_events`,
/// `roundtrip`): a stale handle reports `ResourceNotFound` and changes
/// nothing; a decode failure reports `ProtocolError` and changes nothing —
/// the connection stays in the table for the caller to judge; a decoded
/// batch is applied and its length reported.
pub open spec fn dispatch_post(
    pre: Bridge,
    post: Bridge,
    h: u32,
    outcome: DispatchOutcome,
    r: Result<usize, WaylandError>,
) -> bool {
    match outcome {
        DispatchOutcome::Events { events } => {
            if pre.connections().dom().contains(h) {
                &&& r == Ok::<usize, WaylandError>(events@.len() as usize)
                &&& delivered(pre, post, h, events@)
            } else {
                &&& r == Err::<usize, WaylandError>(WaylandError::ResourceNotFound)
                &&& post == pre
            }
        },
        DispatchOutcome::Malformed { message } => {
            &&& post == pre
            &&& if pre.connections().dom().contains(h) {
                r == Err::<usize, WaylandError>(WaylandError::ProtocolError(message))
            } else {
                r == Err::<usize, WaylandError>(WaylandError::ResourceNotFound)
            }
        },
    }
}

/// How a successful registry bind changes the bridge: a fresh handle maps
/// to a registry bound on `h`, whose snapshot starts as a copy of the
/// connection's already-warm snapshot; nothing else moves.
pub open spec fn registry_bound(pre: Bridge, post: Bridge, h: u32, rh: u32) -> bool {
    &&& pre.connections().dom().contains(h)
    &&& rh == pre.next_id()
    &&& post.next_id() == pre.next_id() + 1
    &&& post.connections() == pre.connections()
    &&& post.registries().dom() == pre.registries().dom().insert(rh)
    &&& post.registries()[rh].connection == h
    &&& post.registries()[rh].globals@ == pre.connections()[h].globals@
    &&& forall|k: u32|
        k != rh && pre.registries().dom().contains(k) ==> post.registries()[k]
            == pre.registries()[k]
}

/// A run of sequential allocations: `states` are the bridge states before
/// and after each call, `ids` the handles returned, exactly as the
/// contract of `get_next_id` relates them.
pub open spec fn allocation_chain(states: Seq<Bridge>, ids: Seq<u32>) -> bool {
    &&& ids.len() + 1 == states.len()
    &&& forall|k: int|
        0 <= k < ids.len() ==> #[trigger] ids[k] == states[k].next_id() && states[k
            + 1].next_id() == ids[k] + 1
}

/// The bridge: handle allocator, connection table, and registry table.
pub struct Bridge {
    id_counter: u32,
    conn_table: HandleTable<ConnectionState>,
    reg_table: HandleTable<RegistryState>,
}

impl Bridge {
    /// The next handle the allocator will issue.
    pub closed spec fn next_id(&self) -> u32 {
        self.id_counter
    }

    /// The live connections, by handle.
    pub closed spec fn connections(&self) -> Map<u32, ConnectionState> {
        self.conn_table@
    }

    /// The bound registries, by handle.
    pub closed spec fn registries(&self) -> Map<u32, RegistryState> {
        self.reg_table@
    }

    /// The bridge's invariant: the tables are maps, every issued handle is
    /// below the allocator's counter (so fresh handles never collide), and
    /// every snapshot is a mapping with unique names.
    pub closed spec fn wf(&self) -> bool {
        &&& self.conn_table.wf()
        &&& self.reg_table.wf()
        &&& forall|h: u32| #[trigger]
            self.connections().dom().contains(h) ==> h < self.id_counter
                && self.connections()[h].globals.wf()
        &&& forall|h: u32| #[trigger]
            self.registries().dom().contains(h) ==> h < self.id_counter
                && self.registries()[h].globals.wf()
    }

    /// An empty bridge with no resources and the handle counter at its
    /// start.
    pub fn new() -> (b: Bridge)
        ensures
            b.wf(),
            b.next_id() == 1u32,
            b.connections() =~= Map::<u32, ConnectionState>::empty(),
            b.registries() =~= Map::<u32, RegistryState>::empty(),
    {
        Bridge { id_counter: 1, conn_table: HandleTable::new(), reg_table: HandleTable::new() }
    }

    /// Whether the allocator can still issue a handle. Handle-space
    /// exhaustion is a fatal condition the bridge does not handle; callers
    /// check this before any operation that issues a handle.
    pub fn can_allocate(&self) -> (r: bool)
        ensures
            r == (self.next_id() < u32::MAX),
    {
        self.id_counter < u32::MAX
    }

    /// Allocates a fresh handle: unique for the life of the bridge, never
    /// reused, and never colliding with a live handle.
    pub fn get_next_id(&mut self) -> (id: u32)
        requires
            old(self).wf(),
            old(self).next_id() < u32::MAX,
        ensures
            final(self).wf(),
            id == old(self).next_id(),
            final(self).next_id() == id + 1,
            final(self).connections() == old(self).connections(),
            final(self).registries() == old(self).registries(),
            !final(self).connections().dom().contains(id),
            !final(self).registries().dom().contains(id),
    {
        let id = self.id_counter;
        self.id_counter = self.id_counter + 1;
        proof {
            assert forall|h2: u32| #[trigger]
                self.connections().dom().contains(h2) implies h2 < self.id_counter
                && self.connections()[h2].globals.wf() by {
                assert(old(self).connections().dom().contains(h2));
            }
            assert forall|h2: u32| #[trigger]
                self.registries().dom().contains(h2) implies h2 < self.id_counter
                && self.registries()[h2].globals.wf() by {
                assert(old(self).registries().dom().contains(h2));
            }
            assert(!self.connections().dom().contains(id)) by {
                if self.connections().dom().contains(id) {
                    assert(old(self).connections().dom().contains(id));
                }
            }
            assert(!self.registries().dom().contains(id)) by {
                if self.registries().dom().contains(id) {
                    assert(old(self).registries().dom().contains(id));
                }
            }
        }
        id
    }

    /// Registers a connection attempt.
    ///
    /// On an established connection the initial event burst — gathered by
    /// the blocking round-trip the native layer performs before reporting
    /// success — is applied to an empty snapshot, so no caller ever sees an
    /// unwarmed snapshot, and a fresh handle is issued. An unreachable
    /// endpoint reports `ConnectionFailed`; a failure during the initial
    /// round-trip reports `ProtocolError`; neither changes the bridge.
    pub fn connect(&mut self, outcome: ConnectOutcome) -> (r: Result<u32, WaylandError>)
        requires
            old(self).wf(),
            old(self).next_id() < u32::MAX,
        ensures
            final(self).wf(),
            match outcome {
                ConnectOutcome::Established { fd, initial_events } => {
                    &&& r == Ok::<u32, WaylandError>(old(self).next_id())
                    &&& connect_established(
                        *old(self),
                        *final(self),
                        fd,
                        initial_events@,
                        old(self).next_id(),
                    )
                },
                ConnectOutcome::EndpointUnreachable { message } => {
                    &&& r == Err::<u32, WaylandError>(WaylandError::ConnectionFailed(message))
                    &&& *final(self) == *old(self)
                },
                ConnectOutcome::SetupFailed { message } => {
                    &&& r == Err::<u32, WaylandError>(WaylandError::ProtocolError(message))
                    &&& *final(self) == *old(self)
                },
            },
    {
        match outcome {
            ConnectOutcome::Established { fd, initial_events } => {
                let mut g = GlobalsSnapshot::new();
                g.apply_events(&initial_events);
                let id = self.get_next_id();
                self.conn_table.insert(id, ConnectionState { fd, globals: g });
                proof {
                    assert(self.connections().dom() =~= old(self).connections().dom().insert(id));
                    assert forall|h2: u32| #[trigger]
                        self.connections().dom().contains(h2) implies h2 < self.id_counter
                        && self.connections()[h2].globals.wf() by {
                        if h2 != id {
                            assert(old(self).connections().dom().contains(h2));
                        }
                    }
                    assert forall|h2: u32| #[trigger]
                        self.registries().dom().contains(h2) implies h2 < self.id_counter
                        && self.registries()[h2].globals.wf() by {
                        assert(old(self).registries().dom().contains(h2));
                    }
                }
                Ok(id)
            },
            ConnectOutcome::EndpointUnreachable { message } => {
                Err(WaylandError::ConnectionFailed(message))
            },
            ConnectOutcome::SetupFailed { message } => Err(WaylandError::ProtocolError(message)),
        }
    }

    /// Detaches a connection: the handle leaves the table and the native
    /// teardown is a consequence of the owner dropping out of the table,
    /// not a separate step. Idempotent — disconnecting a handle that is
    /// already gone succeeds silently.
    pub fn disconnect(&mut self, h: u32)
        requires
            old(self).wf(),
        ensures
            final(self).wf(),
            disconnect_post(*old(self), *final(self), h),
    {
        let _ = self.conn_table.remove(h);
        proof {
            assert forall|h2: u32| #[trigger]
                self.connections().dom().contains(h2) implies h2 < self.id_counter
                && self.connections()[h2].globals.wf() by {
                assert(old(self).connections().dom().contains(h2));
            }
            assert forall|h2: u32| #[trigger]
                self.registries().dom().contains(h2) implies h2 < self.id_counter
                && self.registries()[h2].globals.wf() by {
                assert(old(self).registries().dom().contains(h2));
            }
        }
    }

    /// Whether `h` names a live connection; a disconnected handle is
    /// indistinguishable from one never issued.
    pub fn is_connected(&self, h: u32) -> (r: bool)
        requires
            self.wf(),
        ensures
            r == self.connections().dom().contains(h),
    {
        self.conn_table.contains_key(h)
    }

    /// The raw I/O descriptor of connection `h`, for an external event
    /// loop to poll; `ResourceNotFound` exactly when the handle is stale.
    pub fn get_descriptor(&self, h: u32) -> (r: Result<i32, WaylandError>)
        requires
            self.wf(),
        ensures
            match r {
                Ok(fd) => {
                    &&& self.connections().dom().contains(h)
                    &&& fd == self.connections()[h].fd
                },
                Err(e) => {
                    &&& e == WaylandError::ResourceNotFound
                    &&& !self.connections().dom().contains(h)
                },
            },
    {
        match self.conn_table.get(h) {
            Some(c) => Ok(c.fd),
            None => Err(WaylandError::ResourceNotFound),
        }
    }

    /// Applies one dispatch outcome to connection `h` and every registry
    /// bound on it.
    fn deliver(&mut self, h: u32, outcome: DispatchOutcome) -> (r: Result<usize, WaylandError>)
        requires
            old(self).wf(),
        ensures
            final(self).wf(),
            dispatch_post(*old(self), *final(self), h, outcome, r),
    {
        let present = self.conn_table.contains_key(h);
        match outcome {
            DispatchOutcome::Malformed { message } => {
                if present {
                    Err(WaylandError::ProtocolError(message))
                } else {
                    Err(WaylandError::ResourceNotFound)
                }
            },
            DispatchOutcome::Events { events } => {
                if !present {
                    return Err(WaylandError::ResourceNotFound);
                }
                let n = events.len();
                proof {
                    assert(old(self).connections().dom().contains(h));
                    assert(old(self).connections()[h].globals.wf());
                }
                // Advance the connection's own snapshot.
                let (fd, mut g) = match self.conn_table.get(h) {
                    Some(c) => (c.fd, c.globals.duplicate()),
                    None => {
                        proof {
                            assert(false);
                        }
                        return Err(WaylandError::ResourceNotFound);
                    },
                };
                g.apply_events(&events);
                self.conn_table.replace(h, ConnectionState { fd, globals: g });
                proof {
                    assert(self.connections().dom() =~= old(self).connections().dom());
                }
                // Advance the snapshot of every registry bound on `h`.
                let ghost m0 = self.reg_table@;
                let ghost c1 = self.conn_table@;
                let ghost counter = self.id_counter;
                proof {
                    assert(m0 == old(self).registries());
                    assert forall|rk: u32| #[trigger]
                        m0.dom().contains(rk) implies m0[rk].globals.wf() by {
                        assert(old(self).registries().dom().contains(rk));
                    }
                }
                let ks = self.reg_table.handles();
                let mut i: usize = 0;
                while i < ks.len()
                    invariant
                        i <= ks@.len(),
                        ks@.no_duplicates(),
                        forall|k: u32| ks@.contains(k) <==> m0.dom().contains(k),
                        forall|rk: u32| #[trigger] m0.dom().contains(rk) ==> m0[rk].globals.wf(),
                        self.id_counter == counter,
                        self.conn_table@ == c1,
                        self.conn_table.wf(),
                        self.reg_table.wf(),
                        self.reg_table@.dom() == m0.dom(),
                        forall|j: int| 0 <= j < ks@.len() ==> {
                            let rk = #[trigger] ks@[j];
                            if j < i && m0[rk].connection == h {
                                &&& self.reg_table@[rk].connection == m0[rk].connection
                                &&& self.reg_table@[rk].globals@ == apply_events_spec(
                                    m0[rk].globals@,
                                    events@,
                                )
                                &&& self.reg_table@[rk].globals.wf()
                            } else {
                                self.reg_table@[rk] == m0[rk]
                            }
                        },
                    decreases ks@.len() - i,
                {
                    let k = ks[i];
                    let ghost mprev = self.reg_table@;
                    proof {
                        assert(ks@[i as int] == k);
                        assert(ks@.contains(k));
                        assert(m0.dom().contains(k));
                        assert(mprev[k] == m0[k]);
                    }
                    let mut fresh: Option<GlobalsSnapshot> = None;
                    match self.reg_table.get(k) {
                        Some(st) => {
                            if st.connection == h {
                                fresh = Some(st.globals.duplicate());
                            }
                        },
                        None => {},
                    }
                    match fresh {
                        Some(mut g2) => {
                            g2.apply_events(&events);
                            self.reg_table.replace(
                                k,
                                RegistryState { connection: h, globals: g2 },
                            );
                            proof {
                                assert(self.reg_table@.dom() =~= m0.dom());
                            }
                        },
                        None => {},
                    }
                    proof {
                        assert forall|j: int| 0 <= j < ks@.len() implies {
                            let rk = #[trigger] ks@[j];
                            if j < i + 1 && m0[rk].connection == h {
                                &&& self.reg_table@[rk].connection == m0[rk].connection
                                &&& self.reg_table@[rk].globals@ == apply_events_spec(
                                    m0[rk].globals@,
                                    events@,
                                )
                                &&& self.reg_table@[rk].globals.wf()
                            } else {
                                self.reg_table@[rk] == m0[rk]
                            }
                        } by {
                            let rk = ks@[j];
                            if j != i as int {
                                assert(ks@[j] != ks@[i as int]);
                                assert(self.reg_table@[rk] == mprev[rk]);
                            }
                        }
                    }
                    i += 1;
                }
                proof {
                    assert forall|rk: u32| #[trigger]
                        m0.dom().contains(rk) implies {
                        let r0 = m0[rk];
                        let r1 = self.reg_table@[rk];
                        &&& r1.connection == r0.connection
                        &&& if r0.connection == h {
                            r1.globals@ == apply_events_spec(r0.globals@, events@)
                        } else {
                            r1 == r0
                        }
                    } by {
                        assert(ks@.contains(rk));
                        let j = choose|j: int| 0 <= j < ks@.len() && ks@[j] == rk;
                        assert(ks@[j] == rk);
                    }
                    assert forall|h2: u32| #[trigger]
                        self.connections().dom().contains(h2) implies h2 < self.id_counter
                        && self.connections()[h2].globals.wf() by {
                        assert(old(self).connections().dom().contains(h2));
                    }
                    assert forall|h2: u32| #[trigger]
                        self.registries().dom().contains(h2) implies h2 < self.id_counter
                        && self.registries()[h2].globals.wf() by {
                        assert(old(self).registries().dom().contains(h2));
                        assert(m0.dom().contains(h2));
                    }
                    assert(delivered(*old(self), *self, h, events@));
                }
                Ok(n)
            },
        }
    }

    /// Processes events the native layer already decoded without blocking
    /// for new input; delegates the per-queue serialization to the lock the
    /// embedding holds while it produces the outcome.
    pub fn flush_events(&mut self, h: u32, outcome: DispatchOutcome) -> (r: Result<
        usize,
        WaylandError,
    >)
        requires
            old(self).wf(),
        ensures
            final(self).wf(),
            dispatch_post(*old(self), *final(self), h, outcome, r),
    {
        self.deliver(h, outcome)
    }

    /// Applies the events observed by a blocking round-trip: the native
    /// layer returns only once the server has processed all prior requests,
    /// so the snapshot is complete up to that synchronization point.
    pub fn roundtrip(&mut self, h: u32, outcome: DispatchOutcome) -> (r: Result<
        usize,
        WaylandError,
    >)
        requires
            old(self).wf(),
        ensures
            final(self).wf(),
            dispatch_post(*old(self), *final(self), h, outcome, r),
    {
        self.deliver(h, outcome)
    }

    /// Binds a registry on connection `h`: a fresh handle whose snapshot
    /// starts from the connection's warm snapshot and is kept current by
    /// every later dispatch on `h`; `ResourceNotFound` exactly when `h` is
    /// stale.
    pub fn get_registry(&mut self, h: u32) -> (r: Result<u32, WaylandError>)
        requires
            old(self).wf(),
            old(self).next_id() < u32::MAX,
        ensures
            final(self).wf(),
            match r {
                Ok(rh) => registry_bound(*old(self), *final(self), h, rh),
                Err(e) => {
                    &&& e == WaylandError::ResourceNotFound
                    &&& !old(self).connections().dom().contains(h)
                    &&& *final(self) == *old(self)
                },
            },
    {
        let g = match self.conn_table.get(h) {
            Some(c) => c.globals.duplicate(),
            None => {
                return Err(WaylandError::ResourceNotFound);
            },
        };
        let rh = self.get_next_id();
        self.reg_table.insert(rh, RegistryState { connection: h, globals: g });
        proof {
            assert(self.registries().dom() =~= old(self).registries().dom().insert(rh));
            assert(old(self).connections().dom().contains(h));
            assert forall|h2: u32| #[trigger]
                self.connections().dom().contains(h2) implies h2 < self.id_counter
                && self.connections()[h2].globals.wf() by {
                assert(old(self).connections().dom().contains(h2));
            }
            assert forall|h2: u32| #[trigger]
                self.registries().dom().contains(h2) implies h2 < self.id_counter
                && self.registries()[h2].globals.wf() by {
                if h2 != rh {
                    assert(old(self).registries().dom().contains(h2));
                }
            }
        }
        Ok(rh)
    }

    /// A consistent point-in-time copy of registry `rh`'s snapshot, in an
    /// order callers must not depend on; `ResourceNotFound` exactly when
    /// the registry handle is stale.
    pub fn list_globals(&self, rh: u32) -> (r: Result<Vec<GlobalEntry>, WaylandError>)
        requires
            self.wf(),
        ensures
            match r {
                Ok(v) => {
                    &&& self.registries().dom().contains(rh)
                    &&& v@ == self.registries()[rh].globals@
                },
                Err(e) => {
                    &&& e == WaylandError::ResourceNotFound
                    &&& !self.registries().dom().contains(rh)
                },
            },
    {
        match self.reg_table.get(rh) {
            Some(st) => Ok(st.globals.list()),
            None => Err(WaylandError::ResourceNotFound),
        }
    }

    /// Instantiating a protocol object for a named global is not
    /// implemented: per-interface binding code does not exist yet, and the
    /// stub must fail distinguishably rather than issue a handle to a
    /// non-functional object.
    #[allow(unused_variables)]
    pub fn bind_global(&self, registry: u32, name: u32, interface: String, version: u32) -> (r:
        Result<u32, WaylandError>)
        ensures
            r == Err::<u32, WaylandError>(WaylandError::Unimplemented),
    {
        Err(WaylandError::Unimplemented)
    }

    /// Creating a surface must first resolve a bound compositor global via
    /// `bind_global`; until that flow exists this fails distinguishably
    /// rather than issue a handle every later operation would silently
    /// no-op against.
    #[allow(unused_variables)]
    pub fn create_surface(&self, connection: u32) -> (r: Result<u32, WaylandError>)
        ensures
            r == Err::<u32, WaylandError>(WaylandError::Unimplemented),
    {
        Err(WaylandError::Unimplemented)
    }

    /// A surface stand-in: no surface can exist yet, and a stub must not
    /// fabricate success.
    #[allow(unused_variables)]
    pub fn destroy_surface(&self, surface: u32) -> (r: Result<(), WaylandError>)
        ensures
            r == Err::<(), WaylandError>(WaylandError::Unimplemented),
    {
        Err(WaylandError::Unimplemented)
    }

    /// A surface stand-in: no surface can exist yet, and a stub must not
    /// fabricate success.
    #[allow(unused_variables)]
    pub fn surface_attach(&self, surface: u32, buffer: Option<u32>, x: i32, y: i32) -> (r: Result<
        (),
        WaylandError,
    >)
        ensures
            r == Err::<(), WaylandError>(WaylandError::Unimplemented),
    {
        Err(WaylandError::Unimplemented)
    }

    /// A surface stand-in: no surface can exist yet, and a stub must not
    /// fabricate success.
    #[allow(unused_variables)]
    pub fn surface_damage(&self, surface: u32, x: i32, y: i32, width: i32, height: i32) -> (r:
        Result<(), WaylandError>)
        ensures
            r == Err::<(), WaylandError>(WaylandError::Unimplemented),
    {
        Err(WaylandError::Unimplemented)
    }

    /// A surface stand-in: no surface can exist yet, and a stub must not
    /// fabricate success.
    #[allow(unused_variables)]
    pub fn surface_commit(&self, surface: u32) -> (r: Result<(), WaylandError>)
        ensures
            r == Err::<(), WaylandError>(WaylandError::Unimplemented),
    {
        Err(WaylandError::Unimplemented)
    }

    /// A surface stand-in: no surface can exist yet, and a stub must not
    /// fabricate success.
    #[allow(unused_variables)]
    pub fn surface_set_input_region(&self, surface: u32, region: Option<u32>) -> (r: Result<
        (),
        WaylandError,
    >)
        ensures
            r == Err::<(), WaylandError>(WaylandError::Unimplemented),
    {
        Err(WaylandError::Unimplemented)
    }

    /// A surface stand-in: no surface can exist yet, and a stub must not
    /// fabricate success.
    #[allow(unused_variables)]
    pub fn surface_set_opaque_region(&self, surface: u32, region: Option<u32>) -> (r: Result<
        (),
        WaylandError,
    >)
        ensures
            r == Err::<(), WaylandError>(WaylandError::Unimplemented),
    {
        Err(WaylandError::Unimplemented)
    }

    /// A shared-memory stand-in: pool creation needs the shared-memory
    /// global bound first, and a stub must not fabricate success.
    #[allow(unused_variables)]
    pub fn create_shm_pool(&self, connection: u32, size: u64) -> (r: Result<u32, WaylandError>)
        ensures
            r == Err::<u32, WaylandError>(WaylandError::Unimplemented),
    {
        Err(WaylandError::Unimplemented)
    }

    /// A shared-memory stand-in: no pool can exist yet, and a stub must
    /// not fabricate success.
    #[allow(unused_variables)]
    pub fn create_buffer(
        &self,
        pool: u32,
        offset: u64,
        width: u32,
        height: u32,
        stride: u32,
        format: u32,
    ) -> (r: Result<u32, WaylandError>)
        ensures
            r == Err::<u32, WaylandError>(WaylandError::Unimplemented),
    {
        Err(WaylandError::Unimplemented)
    }

    /// A region stand-in: region creation needs a bound compositor first,
    /// and a stub must not fabricate success.
    #[allow(unused_variables)]
    pub fn create_region(&self, compositor: u32) -> (r: Result<u32, WaylandError>)
        ensures
            r == Err::<u32, WaylandError>(WaylandError::Unimplemented),
    {
        Err(WaylandError::Unimplemented)
    }

    /// A region stand-in: no region can exist yet, and a stub must not
    /// fabricate success.
    #[allow(unused_variables)]
    pub fn region_add(&self, region: u32, x: i32, y: i32, width: i32, height: i32) -> (r: Result<
        (),
        WaylandError,
    >)
        ensures
            r == Err::<(), WaylandError>(WaylandError::Unimplemented),
    {
        Err(WaylandError::Unimplemented)
    }

    /// A region stand-in: no region can exist yet, and a stub must not
    /// fabricate success.
    #[allow(unused_variables)]
    pub fn region_subtract(&self, region: u32, x: i32, y: i32, width: i32, height: i32) -> (r:
        Result<(), WaylandError>)
        ensures
            r == Err::<(), WaylandError>(WaylandError::Unimplemented),
    {
        Err(WaylandError::Unimplemented)
    }
}

/// The bridge library's semantic version.
pub fn get_version() -> (r: &'static str)
    ensures
        r@ == "0.1.0"@,
{
    "0.1.0"
}

/// After a connect whose initial burst announces at least one global, the
/// snapshot a freshly bound registry starts from is non-empty: the initial
/// round-trip completes before the connection handle is returned, so the
/// first query after a successful connect never sees an empty snapshot.
pub proof fn lemma_fresh_registry_is_warm(
    b0: Bridge,
    b1: Bridge,
    b2: Bridge,
    fd: i32,
    evs: Seq<RegistryEvent>,
    h: u32,
    rh: u32,
)
    requires
        evs.len() > 0,
        forall|i: int| 0 <= i < evs.len() ==> evs[i] is Announce,
        connect_established(b0, b1, fd, evs, h),
        registry_bound(b1, b2, h, rh),
    ensures
        b2.registries()[rh].globals@.len() >= 1,
{
    lemma_announces_leave_nonempty(Seq::<GlobalEntry>::empty(), evs);
}

/// Disconnect is idempotent: a second disconnect of the same handle also
/// succeeds (it returns nothing and requires nothing of the handle) and
/// leaves the bridge exactly as the first left it.
pub proof fn lemma_disconnect_idempotent(pre: Bridge, mid: Bridge, post: Bridge, h: u32)
    requires
        disconnect_post(pre, mid, h),
        disconnect_post(mid, post, h),
    ensures
        post.connections() == mid.connections(),
        post.registries() == mid.registries(),
        post.next_id() == mid.next_id(),
{
    assert(post.connections() =~= mid.connections());
}

/// In a run of sequential allocations, handle number `k` is the starting
/// counter plus `k`: the counter only climbs, by one per call.
proof fn lemma_allocation_chain_value(states: Seq<Bridge>, ids: Seq<u32>, k: int)
    requires
        allocation_chain(states, ids),
        0 <= k < ids.len(),
    ensures
        ids[k] == states[0].next_id() + k,
    decreases k,
{
    if k > 0 {
        lemma_allocation_chain_value(states, ids, k - 1);
    }
}

/// Sequentially allocated handles are pairwise distinct: each allocation
/// returns the counter and leaves it one higher, so in any run of
/// sequential allocations no handle repeats.
pub proof fn lemma_allocated_handles_distinct(states: Seq<Bridge>, ids: Seq<u32>, i: int, j: int)
    requires
        allocation_chain(states, ids),
        0 <= i < ids.len(),
        0 <= j < ids.len(),
        i != j,
    ensures
        ids[i] != ids[j],
{
    lemma_allocation_chain_value(states, ids, i);
    lemma_allocation_chain_value(states, ids, j);
}

/// Stale-handle safety: once a handle has been disconnected, it is no
/// longer connected, any dispatch on it reports `ResourceNotFound` and
/// changes nothing, and no registry bind on it can succeed — by the
/// operations' contracts, every later operation taking the handle reports
/// `ResourceNotFound` (or `false` from `is_connected`), and never panics.
pub proof fn lemma_stale_handle_safety(pre: Bridge, post: Bridge, h: u32)
    requires
        disconnect_post(pre, post, h),
    ensures
        !post.connections().dom().contains(h),
        forall|b2: Bridge, outcome: DispatchOutcome, r: Result<usize, WaylandError>| #[trigger]
            dispatch_post(post, b2, h, outcome, r) ==> r == Err::<usize, WaylandError>(
                WaylandError::ResourceNotFound,
            ) && b2 == post,
        forall|b2: Bridge, rh: u32| !#[trigger] registry_bound(post, b2, h, rh),
{
}

/// Serialized dispatch composes: delivering one batch and then another —
/// the only way two concurrent callers' operations can land, since each
/// queue's guard admits one operation at a time — leaves every affected
/// snapshot equal to the one batch-concatenation would produce, so the
/// result is the same as running the two operations in that serial order,
/// one after the other.
pub proof fn lemma_serialized_dispatch(
    b0: Bridge,
    b1: Bridge,
    b2: Bridge,
    h: u32,
    e1: Seq<RegistryEvent>,
    e2: Seq<RegistryEvent>,
)
    requires
        delivered(b0, b1, h, e1),
        delivered(b1, b2, h, e2),
    ensures
        b2.connections()[h].globals@ == apply_events_spec(b0.connections()[h].globals@, e1 + e2),
        forall|rk: u32| #[trigger]
            b0.registries().dom().contains(rk) && b0.registries()[rk].connection == h
                ==> b2.registries()[rk].globals@ == apply_events_spec(
                b0.registries()[rk].globals@,
                e1 + e2,
            ),
{
    lemma_apply_events_concat(b0.connections()[h].globals@, e1, e2);
    assert forall|rk: u32| #[trigger]
        b0.registries().dom().contains(rk) && b0.registries()[rk].connection == h
            implies b2.registries()[rk].globals@ == apply_events_spec(
        b0.registries()[rk].globals@,
        e1 + e2,
    ) by {
        lemma_apply_events_concat(b0.registries()[rk].globals@, e1, e2);
    }
}

} // verus!
