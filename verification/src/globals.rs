//! The global-info snapshot: the bridge's mirror of the capabilities
//! ("globals") a server has advertised on one connection.
//!
//! The server pushes announce and retract events through a registry; the
//! dispatch path is the only writer of a snapshot, and applies events in
//! the order the server sent them. Entries are kept in insertion order,
//! which callers must not rely on.

use vstd::prelude::*;

verus! {

/// One advertised capability: a server-assigned numeric name, the
/// interface it speaks, and its version.
#[derive(Debug, PartialEq, Eq)]
pub struct GlobalEntry {
    pub name: u32,
    pub interface: String,
    pub version: u32,
}

/// A registry event as decoded from the wire: a capability announced or
/// retracted by the server.
#[derive(Debug, PartialEq, Eq)]
pub enum RegistryEvent {
    Announce { name: u32, interface: String, version: u32 },
    Retract { name: u32 },
}

/// Whether some entry carries `n` as its name.
pub open spec fn has_name(s: Seq<GlobalEntry>, n: u32) -> bool {
    exists|i: int| 0 <= i < s.len() && s[i].name == n
}

/// The position of the entry named `n` (meaningful only when `has_name`
/// holds; unambiguous when names are unique).
pub open spec fn index_of_name(s: Seq<GlobalEntry>, n: u32) -> int {
    choose|i: int| 0 <= i < s.len() && s[i].name == n
}

/// No name keys two entries: the snapshot is a mapping.
pub open spec fn names_unique(s: Seq<GlobalEntry>) -> bool {
    forall|i: int, j: int|
        0 <= i < s.len() && 0 <= j < s.len() && i != j ==> s[i].name != s[j].name
}

/// What one server event does to a snapshot: an announcement inserts or
/// overwrites the entry for its name; a retraction removes the entry if
/// present and is ignored otherwise — removal before announcement is a
/// protocol violation that must be tolerated, not an error.
pub open spec fn apply_event_spec(s: Seq<GlobalEntry>, ev: RegistryEvent) -> Seq<GlobalEntry> {
    match ev {
        RegistryEvent::Announce { name, interface, version } => {
            let e = GlobalEntry { name, interface, version };
            if has_name(s, name) {
                s.update(index_of_name(s, name), e)
            } else {
                s.push(e)
            }
        },
        RegistryEvent::Retract { name } => {
            if has_name(s, name) {
                s.remove(index_of_name(s, name))
            } else {
                s
            }
        },
    }
}

/// A batch of events applied in the order the server sent them.
pub open spec fn apply_events_spec(s: Seq<GlobalEntry>, evs: Seq<RegistryEvent>) -> Seq<
    GlobalEntry,
>
    decreases evs.len(),
{
    if evs.len() == 0 {
        s
    } else {
        apply_events_spec(apply_event_spec(s, evs[0]), evs.drop_first())
    }
}

/// Applying one event keeps names unique.
pub proof fn lemma_apply_event_preserves_unique(s: Seq<GlobalEntry>, ev: RegistryEvent)
    requires
        names_unique(s),
    ensures
        names_unique(apply_event_spec(s, ev)),
{
    match ev {
        RegistryEvent::Announce { name, interface, version } => {
            let e = GlobalEntry { name, interface, version };
            if has_name(s, name) {
                let idx = index_of_name(s, name);
                assert(0 <= idx < s.len() && s[idx].name == name);
                let t = s.update(idx, e);
                assert forall|i: int, j: int|
                    0 <= i < t.len() && 0 <= j < t.len() && i != j implies t[i].name
                    != t[j].name by {
                    assert(i != idx ==> t[i] == s[i]);
                    assert(j != idx ==> t[j] == s[j]);
                    assert(t[idx].name == s[idx].name);
                }
            } else {
                let t = s.push(e);
                assert(forall|i: int| 0 <= i < s.len() ==> s[i].name != name);
                assert forall|i: int, j: int|
                    0 <= i < t.len() && 0 <= j < t.len() && i != j implies t[i].name
                    != t[j].name by {
                    assert(i < s.len() ==> t[i] == s[i]);
                    assert(j < s.len() ==> t[j] == s[j]);
                }
            }
        },
        RegistryEvent::Retract { name } => {
            if has_name(s, name) {
                let idx = index_of_name(s, name);
                assert(0 <= idx < s.len() && s[idx].name == name);
                let t = s.remove(idx);
                assert forall|i: int, j: int|
                    0 <= i < t.len() && 0 <= j < t.len() && i != j implies t[i].name
                    != t[j].name by {
                    let i0 = if i < idx {
                        i
                    } else {
                        i + 1
                    };
                    let j0 = if j < idx {
                        j
                    } else {
                        j + 1
                    };
                    assert(t[i] == s[i0] && t[j] == s[j0]);
                }
            }
        },
    }
}

/// After a retraction of `n`, no entry is named `n`: with unique names the
/// removed entry was the only carrier of its name.
pub proof fn lemma_retract_removes_name(s: Seq<GlobalEntry>, n: u32)
    requires
        names_unique(s),
    ensures
        !has_name(apply_event_spec(s, RegistryEvent::Retract { name: n }), n),
{
    if has_name(s, n) {
        let idx = index_of_name(s, n);
        assert(0 <= idx < s.len() && s[idx].name == n);
        let t = s.remove(idx);
        assert forall|i: int| 0 <= i < t.len() implies t[i].name != n by {
            let i0 = if i < idx {
                i
            } else {
                i + 1
            };
            assert(t[i] == s[i0]);
        }
    }
}

/// An announcement of `n` followed by a retraction of `n` leaves no entry
/// named `n`, whatever the snapshot held before.
pub proof fn lemma_retract_cancels_announce(
    s: Seq<GlobalEntry>,
    n: u32,
    interface: String,
    version: u32,
)
    requires
        names_unique(s),
    ensures
        !has_name(
            apply_event_spec(
                apply_event_spec(s, RegistryEvent::Announce { name: n, interface, version }),
                RegistryEvent::Retract { name: n },
            ),
            n,
        ),
{
    lemma_apply_event_preserves_unique(
        s,
        RegistryEvent::Announce { name: n, interface, version },
    );
    lemma_retract_removes_name(
        apply_event_spec(s, RegistryEvent::Announce { name: n, interface, version }),
        n,
    );
}

/// Retracting a name that was never announced changes nothing.
pub proof fn lemma_retract_absent_is_noop(s: Seq<GlobalEntry>, n: u32)
    requires
        !has_name(s, n),
    ensures
        apply_event_spec(s, RegistryEvent::Retract { name: n }) == s,
{
}

/// Delivering one batch after another is the same as delivering their
/// concatenation: serialized dispatch composes, so two callers whose
/// operations are serialized in some order see a snapshot reachable by
/// running them one after the other.
pub proof fn lemma_apply_events_concat(
    s: Seq<GlobalEntry>,
    e1: Seq<RegistryEvent>,
    e2: Seq<RegistryEvent>,
)
    ensures
        apply_events_spec(s, e1 + e2) == apply_events_spec(apply_events_spec(s, e1), e2),
    decreases e1.len(),
{
    if e1.len() == 0 {
        assert(e1 + e2 =~= e2);
    } else {
        assert((e1 + e2)[0] == e1[0]);
        assert((e1 + e2).drop_first() =~= e1.drop_first() + e2);
        lemma_apply_events_concat(apply_event_spec(s, e1[0]), e1.drop_first(), e2);
    }
}

/// Applying the first `i + 1` events is one more step after the first `i`:
/// the unrolling the delivery loop maintains.
pub proof fn lemma_apply_events_snoc(s: Seq<GlobalEntry>, evs: Seq<RegistryEvent>, i: int)
    requires
        0 <= i < evs.len(),
    ensures
        apply_events_spec(s, evs.subrange(0, i + 1)) == apply_event_spec(
            apply_events_spec(s, evs.subrange(0, i)),
            evs[i],
        ),
{
    let one = evs.subrange(i, i + 1);
    assert(evs.subrange(0, i + 1) =~= evs.subrange(0, i) + one);
    lemma_apply_events_concat(s, evs.subrange(0, i), one);
    assert(one[0] == evs[i]);
    let x = apply_events_spec(s, evs.subrange(0, i));
    assert(apply_events_spec(x, one) == apply_events_spec(
        apply_event_spec(x, one[0]),
        one.drop_first(),
    ));
    assert(one.drop_first().len() == 0);
    assert(apply_events_spec(apply_event_spec(x, one[0]), one.drop_first()) == apply_event_spec(
        x,
        one[0],
    ));
}

/// An announcement never empties a snapshot: afterwards at least the
/// announced entry is present.
pub proof fn lemma_announce_keeps_nonempty(s: Seq<GlobalEntry>, ev: RegistryEvent)
    requires
        ev is Announce,
    ensures
        apply_event_spec(s, ev).len() >= s.len(),
        apply_event_spec(s, ev).len() >= 1,
{
    match ev {
        RegistryEvent::Announce { name, .. } => {
            if has_name(s, name) {
                let idx = index_of_name(s, name);
                assert(0 <= idx < s.len());
            }
        },
        RegistryEvent::Retract { .. } => {},
    }
}

/// A non-empty burst of announcements leaves a non-empty snapshot: a
/// server that advertises at least one global is never mirrored as empty.
pub proof fn lemma_announces_leave_nonempty(s: Seq<GlobalEntry>, evs: Seq<RegistryEvent>)
    requires
        evs.len() > 0,
        forall|i: int| 0 <= i < evs.len() ==> evs[i] is Announce,
    ensures
        apply_events_spec(s, evs).len() >= 1,
    decreases evs.len(),
{
    lemma_announce_keeps_nonempty(s, evs[0]);
    let s1 = apply_event_spec(s, evs[0]);
    if evs.len() == 1 {
        assert(apply_events_spec(s1, evs.drop_first()) == s1);
    } else {
        assert(forall|i: int|
            0 <= i < evs.drop_first().len() ==> evs.drop_first()[i] is Announce);
        lemma_announces_leave_nonempty(s1, evs.drop_first());
    }
}

/// A private copy of one entry.
fn clone_entry(e: &GlobalEntry) -> (r: GlobalEntry)
    ensures
        r == *e,
{
    GlobalEntry { name: e.name, interface: e.interface.clone(), version: e.version }
}

/// A private copy of one event.
fn clone_event(ev: &RegistryEvent) -> (r: RegistryEvent)
    ensures
        r == *ev,
{
    match ev {
        RegistryEvent::Announce { name, interface, version } => {
            RegistryEvent::Announce {
                name: *name,
                interface: interface.clone(),
                version: *version,
            }
        },
        RegistryEvent::Retract { name } => RegistryEvent::Retract { name: *name },
    }
}

/// The mirror of one connection's advertised globals: a mapping from the
/// server-assigned name to interface and version, represented in insertion
/// order.
#[derive(Debug, PartialEq, Eq)]
pub struct GlobalsSnapshot {
    entries: Vec<GlobalEntry>,
}

impl GlobalsSnapshot {
    /// The snapshot's entries, in insertion order.
    pub closed spec fn view(&self) -> Seq<GlobalEntry> {
        self.entries@
    }

    /// A snapshot is well-formed when it is a mapping: one entry per name.
    pub open spec fn wf(&self) -> bool {
        names_unique(self@)
    }

    /// An empty snapshot: nothing announced yet.
    pub fn new() -> (s: GlobalsSnapshot)
        ensures
            s.wf(),
            s@ =~= Seq::<GlobalEntry>::empty(),
    {
        GlobalsSnapshot { entries: Vec::new() }
    }

    /// The position of the entry named `n`, if one is present.
    fn find_name(&self, n: u32) -> (r: Option<usize>)
        ensures
            match r {
                Some(i) => i < self@.len() && self@[i as int].name == n,
                None => !has_name(self@, n),
            },
    {
        let mut i: usize = 0;
        while i < self.entries.len()
            invariant
                i <= self.entries@.len(),
                forall|j: int| 0 <= j < i ==> self.entries@[j].name != n,
            decreases self.entries@.len() - i,
        {
            if self.entries[i].name == n {
                return Some(i);
            }
            i += 1;
        }
        None
    }

    /// Applies one server event: the dispatch callback's decision.
    pub fn apply_event(&mut self, ev: RegistryEvent)
        requires
            old(self).wf(),
        ensures
            final(self).wf(),
            final(self)@ == apply_event_spec(old(self)@, ev),
    {
        proof {
            lemma_apply_event_preserves_unique(self@, ev);
        }
        match ev {
            RegistryEvent::Announce { name, interface, version } => {
                let e = GlobalEntry { name, interface, version };
                match self.find_name(name) {
                    Some(i) => {
                        proof {
                            assert(has_name(self@, name));
                            let idx = index_of_name(self@, name);
                            assert(0 <= idx < self@.len() && self@[idx].name == name);
                            assert(i as int == idx);
                        }
                        self.entries[i] = e;
                    },
                    None => {
                        self.entries.push(e);
                    },
                }
            },
            RegistryEvent::Retract { name } => {
                match self.find_name(name) {
                    Some(i) => {
                        proof {
                            assert(has_name(self@, name));
                            let idx = index_of_name(self@, name);
                            assert(0 <= idx < self@.len() && self@[idx].name == name);
                            assert(i as int == idx);
                        }
                        let _ = self.entries.remove(i);
                    },
                    None => {},
                }
            },
        }
    }

    /// Applies a batch of decoded events in the order the server sent
    /// them.
    pub fn apply_events(&mut self, evs: &Vec<RegistryEvent>)
        requires
            old(self).wf(),
        ensures
            final(self).wf(),
            final(self)@ == apply_events_spec(old(self)@, evs@),
    {
        let mut i: usize = 0;
        while i < evs.len()
            invariant
                i <= evs@.len(),
                self.wf(),
                self@ == apply_events_spec(old(self)@, evs@.subrange(0, i as int)),
            decreases evs@.len() - i,
        {
            let ev = clone_event(&evs[i]);
            proof {
                lemma_apply_events_snoc(old(self)@, evs@, i as int);
            }
            self.apply_event(ev);
            i += 1;
        }
        proof {
            assert(evs@.subrange(0, evs@.len() as int) =~= evs@);
        }
    }

    /// A consistent point-in-time copy of the snapshot, in insertion
    /// order; callers must not depend on the order.
    pub fn list(&self) -> (r: Vec<GlobalEntry>)
        ensures
            r@ == self@,
    {
        let mut out: Vec<GlobalEntry> = Vec::new();
        let mut i: usize = 0;
        while i < self.entries.len()
            invariant
                i <= self.entries@.len(),
                out@ =~= self.entries@.subrange(0, i as int),
            decreases self.entries@.len() - i,
        {
            out.push(clone_entry(&self.entries[i]));
            proof {
                assert(out@ =~= self.entries@.subrange(0, i as int + 1));
            }
            i += 1;
        }
        proof {
            assert(out@ =~= self.entries@);
        }
        out
    }

    /// A full private copy; used when a registry is bound and starts from
    /// the connection's already-warm snapshot.
    pub fn duplicate(&self) -> (r: GlobalsSnapshot)
        ensures
            r@ == self@,
            r.wf() == self.wf(),
    {
        GlobalsSnapshot { entries: self.list() }
    }
}

} // verus!
