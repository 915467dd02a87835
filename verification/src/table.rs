//! The handle table: the store that owns every bridged resource and maps an
//! opaque `u32` handle to it.
//!
//! Callers across the host boundary only ever hold the integer; the table is
//! the single owner of the value behind it. The table is modelled as a
//! `Map<u32, T>` view over an association vector whose keys are unique.

use vstd::prelude::*;

verus! {

/// The mathematical contents of an association list: later entries win,
/// though with unique keys the order never matters.
pub open spec fn as_map<T>(s: Seq<(u32, T)>) -> Map<u32, T>
    decreases s.len(),
{
    if s.len() == 0 {
        Map::empty()
    } else {
        as_map(s.drop_last()).insert(s.last().0, s.last().1)
    }
}

/// The keys of an association list, in entry order.
pub open spec fn key_seq<T>(s: Seq<(u32, T)>) -> Seq<u32> {
    s.map_values(|e: (u32, T)| e.0)
}

/// Dropping the last entry drops the last key.
proof fn lemma_key_seq_drop_last<T>(s: Seq<(u32, T)>)
    requires
        s.len() > 0,
    ensures
        key_seq(s.drop_last()) =~= key_seq(s).drop_last(),
{
}

/// A prefix of a duplicate-free sequence is duplicate-free.
proof fn lemma_drop_last_no_duplicates(s: Seq<u32>)
    requires
        s.no_duplicates(),
        s.len() > 0,
    ensures
        s.drop_last().no_duplicates(),
{
    assert forall|a: int, b: int|
        0 <= a < s.drop_last().len() && 0 <= b < s.drop_last().len() && a != b implies s.drop_last()[a]
        != s.drop_last()[b] by {
        assert(s.drop_last()[a] == s[a]);
        assert(s.drop_last()[b] == s[b]);
    }
}

/// Dropping one element of a duplicate-free sequence keeps it
/// duplicate-free.
pub proof fn lemma_remove_no_duplicates(s: Seq<u32>, i: int)
    requires
        s.no_duplicates(),
        0 <= i < s.len(),
    ensures
        s.remove(i).no_duplicates(),
{
    let t = s.remove(i);
    assert forall|a: int, b: int|
        0 <= a < t.len() && 0 <= b < t.len() && a != b implies t[a] != t[b] by {
        let a0 = if a < i {
            a
        } else {
            a + 1
        };
        let b0 = if b < i {
            b
        } else {
            b + 1
        };
        assert(t[a] == s[a0] && t[b] == s[b0]);
    }
}

/// A handle is in the domain of the contents exactly when some entry
/// carries it as its key.
pub proof fn lemma_as_map_dom<T>(s: Seq<(u32, T)>, k: u32)
    ensures
        as_map(s).dom().contains(k) <==> key_seq(s).contains(k),
    decreases s.len(),
{
    if s.len() > 0 {
        lemma_as_map_dom(s.drop_last(), k);
        assert(key_seq(s)[s.len() - 1] == s.last().0);
        if k == s.last().0 {
            assert(key_seq(s).contains(k));
        } else {
            if key_seq(s.drop_last()).contains(k) {
                let i = choose|i: int|
                    0 <= i < s.len() - 1 && key_seq(s.drop_last())[i] == k;
                assert(key_seq(s)[i] == k);
                assert(key_seq(s).contains(k));
            }
            if key_seq(s).contains(k) {
                let i = choose|i: int| 0 <= i < s.len() && key_seq(s)[i] == k;
                assert(i != s.len() - 1);
                assert(key_seq(s.drop_last())[i] == k);
                assert(key_seq(s.drop_last()).contains(k));
            }
        }
    }
}

/// With unique keys, the entry at any index is what the contents map its
/// key to.
pub proof fn lemma_as_map_index<T>(s: Seq<(u32, T)>, i: int)
    requires
        key_seq(s).no_duplicates(),
        0 <= i < s.len(),
    ensures
        as_map(s).dom().contains(s[i].0),
        as_map(s)[s[i].0] == s[i].1,
    decreases s.len(),
{
    assert(key_seq(s)[i] == s[i].0);
    assert(key_seq(s).contains(s[i].0));
    lemma_as_map_dom(s, s[i].0);
    if i < s.len() - 1 {
        lemma_key_seq_drop_last(s);
        lemma_drop_last_no_duplicates(key_seq(s));
        assert(s.drop_last()[i] == s[i]);
        lemma_as_map_index(s.drop_last(), i);
        assert(key_seq(s)[s.len() - 1] == s.last().0);
        assert(s[i].0 != s.last().0);
    }
}

/// Appending a fresh entry inserts exactly its key into the contents.
pub proof fn lemma_as_map_push<T>(s: Seq<(u32, T)>, k: u32, v: T)
    ensures
        as_map(s.push((k, v))) =~= as_map(s).insert(k, v),
{
    assert(s.push((k, v)).drop_last() =~= s);
}

/// Removing the entry at an index removes exactly its key from the
/// contents, when keys are unique.
pub proof fn lemma_as_map_remove<T>(s: Seq<(u32, T)>, i: int)
    requires
        key_seq(s).no_duplicates(),
        0 <= i < s.len(),
    ensures
        as_map(s.remove(i)) =~= as_map(s).remove(s[i].0),
    decreases s.len(),
{
    let k = s[i].0;
    assert(key_seq(s)[i] == k);
    assert(key_seq(s)[s.len() - 1] == s.last().0);
    lemma_key_seq_drop_last(s);
    lemma_drop_last_no_duplicates(key_seq(s));
    if i == s.len() - 1 {
        assert(s.remove(i) =~= s.drop_last());
        lemma_as_map_dom(s.drop_last(), k);
        assert(!key_seq(s.drop_last()).contains(k)) by {
            if key_seq(s.drop_last()).contains(k) {
                let j = choose|j: int|
                    0 <= j < s.len() - 1 && key_seq(s.drop_last())[j] == k;
                assert(key_seq(s)[j] == k);
            }
        }
        assert(as_map(s.remove(i)) =~= as_map(s).remove(k));
    } else {
        let t = s.remove(i);
        assert(t.len() == s.len() - 1);
        assert(t[t.len() - 1] == s[s.len() - 1]);
        assert(t.last() == s.last());
        assert(t.drop_last() =~= s.drop_last().remove(i));
        assert(s.drop_last()[i] == s[i]);
        lemma_as_map_remove(s.drop_last(), i);
        assert(s[i].0 != s.last().0);
        assert(as_map(t) =~= as_map(s.drop_last()).remove(k).insert(s.last().0, s.last().1));
        assert(as_map(s).remove(k) =~= as_map(s.drop_last()).remove(k).insert(
            s.last().0,
            s.last().1,
        ));
    }
}

/// Overwriting the entry at an index re-points exactly its key, when keys
/// are unique and the key is kept.
pub proof fn lemma_as_map_update<T>(s: Seq<(u32, T)>, i: int, v: T)
    requires
        key_seq(s).no_duplicates(),
        0 <= i < s.len(),
    ensures
        as_map(s.update(i, (s[i].0, v))) =~= as_map(s).insert(s[i].0, v),
    decreases s.len(),
{
    let k = s[i].0;
    let t = s.update(i, (k, v));
    assert(key_seq(s)[i] == k);
    assert(key_seq(s)[s.len() - 1] == s.last().0);
    lemma_key_seq_drop_last(s);
    lemma_drop_last_no_duplicates(key_seq(s));
    if i == s.len() - 1 {
        assert(t.drop_last() =~= s.drop_last());
        assert(t.last() == (k, v));
    } else {
        assert(t[t.len() - 1] == s[s.len() - 1]);
        assert(t.last() == s.last());
        assert(t.drop_last() =~= s.drop_last().update(i, (k, v)));
        assert(s.drop_last()[i] == s[i]);
        lemma_as_map_update(s.drop_last(), i, v);
        assert(s[i].0 != s.last().0);
        assert(as_map(t) =~= as_map(s.drop_last()).insert(k, v).insert(s.last().0, s.last().1));
        assert(as_map(s).insert(k, v) =~= as_map(s.drop_last()).insert(k, v).insert(
            s.last().0,
            s.last().1,
        ));
    }
}

/// The store mapping an opaque handle to the resource it names.
///
/// Exactly one entry per handle; a handle is only ever inserted while the
/// table does not yet hold it, which the allocator guarantees.
pub struct HandleTable<T> {
    entries: Vec<(u32, T)>,
}

impl<T> HandleTable<T> {
    /// The table's contents as a mathematical map.
    pub closed spec fn view(&self) -> Map<u32, T> {
        as_map(self.entries@)
    }

    /// Each handle keys at most one entry.
    pub closed spec fn wf(&self) -> bool {
        key_seq(self.entries@).no_duplicates()
    }

    /// An empty table.
    pub fn new() -> (t: HandleTable<T>)
        ensures
            t.wf(),
            t@ =~= Map::<u32, T>::empty(),
    {
        HandleTable { entries: Vec::new() }
    }

    /// The position of the entry keyed by `k`, if the table holds one.
    fn find(&self, k: u32) -> (r: Option<usize>)
        requires
            self.wf(),
        ensures
            match r {
                Some(i) => i < self.entries@.len() && self.entries@[i as int].0 == k,
                None => !self@.dom().contains(k),
            },
    {
        let mut i: usize = 0;
        while i < self.entries.len()
            invariant
                i <= self.entries@.len(),
                forall|j: int| 0 <= j < i ==> self.entries@[j].0 != k,
            decreases self.entries@.len() - i,
        {
            if self.entries[i].0 == k {
                return Some(i);
            }
            i += 1;
        }
        proof {
            lemma_as_map_dom(self.entries@, k);
            if key_seq(self.entries@).contains(k) {
                let j = choose|j: int|
                    0 <= j < self.entries@.len() && key_seq(self.entries@)[j] == k;
                assert(self.entries@[j].0 == k);
            }
        }
        None
    }

    /// Whether the table holds a resource under `k`.
    pub fn contains_key(&self, k: u32) -> (r: bool)
        requires
            self.wf(),
        ensures
            r == self@.dom().contains(k),
    {
        match self.find(k) {
            Some(i) => {
                proof {
                    lemma_as_map_index(self.entries@, i as int);
                }
                true
            },
            None => false,
        }
    }

    /// The resource under `k`; absence is an answer, not a failure —
    /// callers decide whether a missing handle is an error.
    pub fn get(&self, k: u32) -> (r: Option<&T>)
        requires
            self.wf(),
        ensures
            match r {
                Some(v) => self@.dom().contains(k) && *v == self@[k],
                None => !self@.dom().contains(k),
            },
    {
        match self.find(k) {
            Some(i) => {
                proof {
                    lemma_as_map_index(self.entries@, i as int);
                }
                Some(&self.entries[i].1)
            },
            None => None,
        }
    }

    /// Stores `v` under the fresh handle `k`.
    pub fn insert(&mut self, k: u32, v: T)
        requires
            old(self).wf(),
            !old(self)@.dom().contains(k),
        ensures
            final(self).wf(),
            final(self)@ =~= old(self)@.insert(k, v),
    {
        proof {
            lemma_as_map_dom(self.entries@, k);
            lemma_as_map_push(self.entries@, k, v);
            let s = self.entries@;
            assert(key_seq(s.push((k, v))) =~= key_seq(s).push(k));
            assert(key_seq(s).push(k).no_duplicates()) by {
                assert(forall|j: int| 0 <= j < s.len() ==> key_seq(s)[j] != k);
            }
        }
        self.entries.push((k, v));
    }

    /// Replaces the resource already stored under `k`.
    pub fn replace(&mut self, k: u32, v: T)
        requires
            old(self).wf(),
            old(self)@.dom().contains(k),
        ensures
            final(self).wf(),
            final(self)@ =~= old(self)@.insert(k, v),
    {
        match self.find(k) {
            Some(i) => {
                proof {
                    lemma_as_map_update(self.entries@, i as int, v);
                    let s = self.entries@;
                    assert(key_seq(s.update(i as int, (k, v))) =~= key_seq(s));
                }
                self.entries[i] = (k, v);
            },
            None => {
                // contradicts the precondition: the handle is in the domain
                proof {
                    assert(false);
                }
            },
        }
    }

    /// Takes the resource under `k` out of the table, dropping ownership of
    /// it onto the caller; a no-op on an absent handle.
    pub fn remove(&mut self, k: u32) -> (r: Option<T>)
        requires
            old(self).wf(),
        ensures
            final(self).wf(),
            final(self)@ =~= old(self)@.remove(k),
            match r {
                Some(v) => old(self)@.dom().contains(k) && v == old(self)@[k],
                None => !old(self)@.dom().contains(k),
            },
    {
        match self.find(k) {
            Some(i) => {
                proof {
                    lemma_as_map_index(self.entries@, i as int);
                    lemma_as_map_remove(self.entries@, i as int);
                    let s = self.entries@;
                    assert(key_seq(s.remove(i as int)) =~= key_seq(s).remove(i as int));
                    lemma_remove_no_duplicates(key_seq(s), i as int);
                }
                let (_, v) = self.entries.remove(i);
                Some(v)
            },
            None => {
                proof {
                    assert(self@ =~= self@.remove(k));
                }
                None
            },
        }
    }

    /// Every handle the table currently holds, in entry order.
    pub fn handles(&self) -> (r: Vec<u32>)
        requires
            self.wf(),
        ensures
            r@.no_duplicates(),
            forall|k: u32| r@.contains(k) <==> self@.dom().contains(k),
    {
        let mut out: Vec<u32> = Vec::new();
        let mut i: usize = 0;
        while i < self.entries.len()
            invariant
                i <= self.entries@.len(),
                out@ =~= key_seq(self.entries@).subrange(0, i as int),
            decreases self.entries@.len() - i,
        {
            out.push(self.entries[i].0);
            proof {
                assert(out@ =~= key_seq(self.entries@).subrange(0, i as int + 1));
            }
            i += 1;
        }
        proof {
            assert(out@ =~= key_seq(self.entries@));
            assert forall|k: u32| out@.contains(k) <==> self@.dom().contains(k) by {
                lemma_as_map_dom(self.entries@, k);
            }
        }
        out
    }
}

} // verus!
