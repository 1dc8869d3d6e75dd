//! The connection registry and the broadcast fan-out.
//!
//! A [`Conn`] models one registered connection by the facts the relay's logic
//! reads of its endpoint: whether the endpoint is currently held by another
//! operation, and the payloads that have been delivered to it. A
//! [`Connections`] value owns the set of live connections, assigns fresh
//! identifiers from a monotonic counter, and broadcasts a payload to every
//! entry with a non-blocking, skip-on-contention write.

use vstd::prelude::*;

verus! {

/// One connection as the registry sees it: an exclusively lockable byte-stream
/// endpoint. The socket itself lives outside the library; what the broadcast
/// logic reads of it is whether the endpoint is held, and what has been
/// written to it.
pub struct Conn {
    /// True while another operation holds the endpoint. A broadcast write
    /// skips a held endpoint instead of waiting on it.
    pub held: bool,
    /// Every payload written in full to this endpoint, oldest first.
    pub delivered: Vec<Vec<u8>>,
}

impl Conn {
    /// The payloads delivered to this connection, as mathematical sequences.
    pub open spec fn received(&self) -> Seq<Seq<u8>> {
        self.delivered.deep_view()
    }

    /// A fresh connection: endpoint idle, nothing delivered yet.
    pub fn new() -> (c: Conn)
        ensures
            !c.held,
            c.received() == Seq::<Seq<u8>>::empty(),
    {
        let c = Conn { held: false, delivered: Vec::new() };
        proof {
            assert(c.received() =~= Seq::<Seq<u8>>::empty());
        }
        c
    }

    /// Attempt a non-blocking write of `buf` to the endpoint. If the endpoint
    /// is held by a concurrent operation the write is skipped and reports 0
    /// bytes written; otherwise the whole payload is delivered.
    pub fn write(&mut self, buf: &Vec<u8>) -> (n: usize)
        ensures
            final(self).held == old(self).held,
            old(self).held ==> n == 0 && final(self).received() == old(self).received(),
            !old(self).held ==> n == buf.len() && final(self).received() == old(self).received().push(buf@),
    {
        if self.held {
            0
        } else {
            let copy = buf.clone();
            proof {
                assert(copy@ =~= buf@);
            }
            self.delivered.push(copy);
            proof {
                assert(copy.deep_view() =~= buf@);
                assert(self.received() =~= old(self).received().push(buf@));
            }
            buf.len()
        }
    }
}

/// One registry entry: a live connection under its assigned identifier.
pub struct Entry {
    /// The identifier assigned at registration time.
    pub id: u32,
    /// The connection registered under that identifier.
    pub conn: Conn,
}

/// Do the entries of `s` carry pairwise distinct identifiers?
pub open spec fn distinct_ids(s: Seq<Entry>) -> bool {
    forall|i: int, j: int| 0 <= i < j < s.len() ==> #[trigger] s[i].id != #[trigger] s[j].id
}

/// Does some entry of `s` carry identifier `id`?
pub open spec fn seq_contains_id(s: Seq<Entry>, id: u32) -> bool {
    exists|i: int| 0 <= i < s.len() && s[i].id == id
}

/// The index of an entry of `s` carrying `id`; meaningful only when one exists.
pub open spec fn index_of_id(s: Seq<Entry>, id: u32) -> int {
    choose|i: int| 0 <= i < s.len() && s[i].id == id
}

/// `s` with the entry carrying `id` taken out, and `s` itself when no entry
/// carries `id`. This is the registry's removal policy on its entry sequence.
pub open spec fn remove_entry(s: Seq<Entry>, id: u32) -> Seq<Entry> {
    if seq_contains_id(s, id) {
        s.remove(index_of_id(s, id))
    } else {
        s
    }
}

/// Removal is idempotent: an identifier that no entry carries is a no-op to
/// remove, removing one that is carried leaves no entry carrying it, and so
/// removing the same identifier twice has exactly the effect of removing it
/// once.
pub proof fn lemma_remove_entry_idempotent(s: Seq<Entry>, id: u32)
    requires
        distinct_ids(s),
    ensures
        !seq_contains_id(s, id) ==> remove_entry(s, id) == s,
        !seq_contains_id(remove_entry(s, id), id),
        remove_entry(remove_entry(s, id), id) == remove_entry(s, id),
{
    if seq_contains_id(s, id) {
        let i = index_of_id(s, id);
        assert(0 <= i < s.len() && s[i].id == id);
        let r = s.remove(i);
        s.remove_ensures(i);
        assert forall|k: int| 0 <= k < r.len() implies #[trigger] r[k].id != id by {
            if k < i {
                assert(r[k] == s[k]);
            } else {
                assert(r[k] == s[k + 1]);
            }
        }
        assert(!seq_contains_id(r, id));
    }
}

/// The registry of live connections: a monotonic identifier counter and the
/// entries currently registered.
pub struct Connections {
    /// The last identifier handed out; identifiers are never reused.
    pub counter: u32,
    /// The live connections, in registration order.
    pub entries: Vec<Entry>,
    /// Every identifier ever assigned by `store`.
    pub assigned: Ghost<Set<u32>>,
    /// Every identifier removed by `remove` while it was registered.
    pub dropped: Ghost<Set<u32>>,
}

impl Connections {
    /// Does some entry carry identifier `id`?
    pub open spec fn contains_id(&self, id: u32) -> bool {
        exists|i: int| 0 <= i < self.entries@.len() && self.entries@[i].id == id
    }

    /// The set of identifiers currently registered.
    pub open spec fn id_set(&self) -> Set<u32> {
        Set::new(|id: u32| self.contains_id(id))
    }

    /// Well-formedness: identifiers are pairwise distinct, every identifier
    /// lies between 1 and the counter, the counter bounds everything ever
    /// assigned, and the registered set is exactly the identifiers ever
    /// assigned minus those removed while registered.
    pub open spec fn wf(&self) -> bool {
        &&& distinct_ids(self.entries@)
        &&& forall|i: int|
            0 <= i < self.entries@.len() ==> 1 <= (#[trigger] self.entries@[i].id) <= self.counter
        &&& forall|id: u32| #[trigger] self.assigned@.contains(id) ==> 1 <= id <= self.counter
        &&& self.dropped@.subset_of(self.assigned@)
        &&& self.id_set() == self.assigned@.difference(self.dropped@)
    }

    /// An empty registry: nothing assigned, nothing registered.
    pub fn new() -> (c: Connections)
        ensures
            c.wf(),
            c.counter == 0,
            c.entries@.len() == 0,
            c.assigned@ == Set::<u32>::empty(),
            c.dropped@ == Set::<u32>::empty(),
            c.id_set() == Set::<u32>::empty(),
    {
        let c = Connections {
            counter: 0,
            entries: Vec::new(),
            assigned: Ghost(Set::empty()),
            dropped: Ghost(Set::empty()),
        };
        proof {
            assert(c.id_set() =~= Set::<u32>::empty());
            assert(c.id_set() =~= c.assigned@.difference(c.dropped@));
        }
        c
    }

    /// Register a connection: step the counter, use the new value as the
    /// identifier, insert the entry, and return the identifier. The new
    /// identifier strictly exceeds every identifier ever assigned before, so
    /// identifiers are pairwise distinct and never reused.
    pub fn store(&mut self, conn: Conn) -> (id: u32)
        requires
            old(self).wf(),
            old(self).counter < u32::MAX,
        ensures
            final(self).wf(),
            id == old(self).counter + 1,
            final(self).counter == id,
            !old(self).assigned@.contains(id),
            forall|j: u32| old(self).assigned@.contains(j) ==> j < id,
            final(self).assigned@ == old(self).assigned@.insert(id),
            final(self).dropped@ == old(self).dropped@,
            final(self).entries@ == old(self).entries@.push((Entry { id, conn })),
            final(self).id_set() == old(self).id_set().insert(id),
    {
        self.counter = self.counter + 1;
        let id = self.counter;
        self.entries.push(Entry { id, conn });
        proof {
            self.assigned@ = self.assigned@.insert(id);
            let prev = *old(self);
            assert(!prev.assigned@.contains(id));
            assert(!prev.dropped@.contains(id));
            assert forall|id2: u32|
                self.id_set().contains(id2) == prev.id_set().insert(id).contains(id2) by {
                if self.contains_id(id2) {
                    let i = choose|i: int| 0 <= i < self.entries@.len() && self.entries@[i].id == id2;
                    if i < prev.entries@.len() {
                        assert(prev.entries@[i].id == id2);
                        assert(prev.contains_id(id2));
                    } else {
                        assert(id2 == id);
                    }
                }
                if prev.contains_id(id2) {
                    let i = choose|i: int| 0 <= i < prev.entries@.len() && prev.entries@[i].id == id2;
                    assert(self.entries@[i].id == id2);
                    assert(self.contains_id(id2));
                }
                if id2 == id {
                    assert(self.entries@[self.entries@.len() - 1].id == id);
                    assert(self.contains_id(id2));
                }
            }
            assert(self.id_set() =~= prev.id_set().insert(id));
            assert(self.id_set() =~= self.assigned@.difference(self.dropped@));
        }
        id
    }

    /// Remove the entry registered under `id`, if any. Removing an identifier
    /// that is not registered, including one already removed, is a no-op: the
    /// registry is left exactly as it was and nothing fails.
    pub fn remove(&mut self, id: u32)
        requires
            old(self).wf(),
        ensures
            final(self).wf(),
            final(self).counter == old(self).counter,
            final(self).assigned@ == old(self).assigned@,
            final(self).dropped@ == (if old(self).contains_id(id) {
                old(self).dropped@.insert(id)
            } else {
                old(self).dropped@
            }),
            final(self).entries@ == remove_entry(old(self).entries@, id),
            final(self).id_set() == old(self).id_set().remove(id),
            !final(self).contains_id(id),
            !old(self).contains_id(id) ==> *final(self) == *old(self),
    {
        let n = self.entries.len();
        let mut i: usize = 0;
        while i < n
            invariant
                *self == *old(self),
                old(self).wf(),
                n == self.entries@.len(),
                i <= n,
                forall|k: int| 0 <= k < i ==> (#[trigger] self.entries@[k].id) != id,
            decreases n - i,
        {
            if self.entries[i].id == id {
                self.entries.remove(i);
                proof {
                    self.dropped@ = self.dropped@.insert(id);
                    let prev = *old(self);
                    let s = prev.entries@;
                    assert(seq_contains_id(s, id));
                    let j = index_of_id(s, id);
                    assert(0 <= j < s.len() && s[j].id == id);
                    assert(j == i);
                    s.remove_ensures(i as int);
                    assert(self.entries@ == remove_entry(s, id));
                    assert(prev.contains_id(id));
                    assert(prev.id_set().contains(id));
                    assert(prev.assigned@.contains(id));
                    assert forall|id2: u32|
                        self.id_set().contains(id2) == prev.id_set().remove(id).contains(id2) by {
                        if self.contains_id(id2) {
                            let k = choose|k: int|
                                0 <= k < self.entries@.len() && self.entries@[k].id == id2;
                            if k < i {
                                assert(s[k].id == id2);
                            } else {
                                assert(s[k + 1].id == id2);
                            }
                            assert(prev.contains_id(id2));
                            assert(id2 != id);
                        }
                        if prev.contains_id(id2) && id2 != id {
                            let k = choose|k: int| 0 <= k < s.len() && s[k].id == id2;
                            if k < i {
                                assert(self.entries@[k].id == id2);
                            } else {
                                assert(k != i);
                                assert(self.entries@[k - 1].id == id2);
                            }
                            assert(self.contains_id(id2));
                        }
                    }
                    assert(self.id_set() =~= prev.id_set().remove(id));
                    assert(self.id_set() =~= self.assigned@.difference(self.dropped@));
                    assert(!self.id_set().contains(id));
                }
                return ;
            }
            i = i + 1;
        }
        proof {
            let prev = *old(self);
            assert(!prev.contains_id(id));
            assert(remove_entry(prev.entries@, id) == prev.entries@);
            assert(self.id_set() =~= prev.id_set().remove(id));
        }
    }

    /// Fan `buf` out to every registered connection and return one record per
    /// entry, in registration order. Each record names the entry's identifier
    /// and how many bytes its write reported: the whole payload when the
    /// endpoint was idle, and 0 when it was held by a concurrent operation,
    /// in which case that delivery is skipped and the traversal goes on. The
    /// broadcast itself never fails and never changes the membership.
    pub fn broadcast(&mut self, buf: &Vec<u8>) -> (log: Vec<Delivery>)
        requires
            old(self).wf(),
        ensures
            final(self).wf(),
            final(self).counter == old(self).counter,
            final(self).assigned@ == old(self).assigned@,
            final(self).dropped@ == old(self).dropped@,
            final(self).id_set() == old(self).id_set(),
            final(self).entries@.len() == old(self).entries@.len(),
            log@.len() == old(self).entries@.len(),
            forall|k: int|
                0 <= k < old(self).entries@.len() ==> {
                    let e = #[trigger] old(self).entries@[k];
                    &&& final(self).entries@[k].id == e.id
                    &&& final(self).entries@[k].conn.held == e.conn.held
                    &&& log@[k].id == e.id
                    &&& e.conn.held ==> log@[k].bytes == 0
                        && final(self).entries@[k].conn.received() == e.conn.received()
                    &&& !e.conn.held ==> log@[k].bytes == buf@.len()
                        && final(self).entries@[k].conn.received() == e.conn.received().push(buf@)
                },
    {
        let mut log: Vec<Delivery> = Vec::new();
        let n = self.entries.len();
        let mut i: usize = 0;
        while i < n
            invariant
                i <= n,
                n == old(self).entries@.len(),
                self.entries@.len() == n,
                log@.len() == i,
                self.counter == old(self).counter,
                self.assigned@ == old(self).assigned@,
                self.dropped@ == old(self).dropped@,
                forall|k: int| i <= k < n ==> self.entries@[k] == old(self).entries@[k],
                forall|k: int|
                    0 <= k < i ==> {
                        let e = #[trigger] old(self).entries@[k];
                        &&& self.entries@[k].id == e.id
                        &&& self.entries@[k].conn.held == e.conn.held
                        &&& log@[k].id == e.id
                        &&& e.conn.held ==> log@[k].bytes == 0
                            && self.entries@[k].conn.received() == e.conn.received()
                        &&& !e.conn.held ==> log@[k].bytes == buf@.len()
                            && self.entries@[k].conn.received() == e.conn.received().push(buf@)
                    },
            decreases n - i,
        {
            let e = &mut self.entries[i];
            let bytes = e.conn.write(buf);
            let id = e.id;
            log.push(Delivery { id, bytes });
            i = i + 1;
        }
        proof {
            let prev = *old(self);
            assert forall|k: int|
                0 <= k < self.entries@.len() implies (#[trigger] self.entries@[k].id)
                == prev.entries@[k].id by {
                assert(prev.entries@[k] == old(self).entries@[k]);
            }
            assert(distinct_ids(self.entries@));
            assert forall|id2: u32| self.id_set().contains(id2) == prev.id_set().contains(id2) by {
                if self.contains_id(id2) {
                    let k = choose|k: int|
                        0 <= k < self.entries@.len() && self.entries@[k].id == id2;
                    assert(prev.entries@[k].id == id2);
                    assert(prev.contains_id(id2));
                }
                if prev.contains_id(id2) {
                    let k = choose|k: int| 0 <= k < prev.entries@.len() && prev.entries@[k].id == id2;
                    assert(self.entries@[k].id == id2);
                    assert(self.contains_id(id2));
                }
            }
            assert(self.id_set() =~= prev.id_set());
            assert(self.id_set() =~= self.assigned@.difference(self.dropped@));
        }
        log
    }
}

/// One broadcast delivery record: which connection was visited and how many
/// bytes its non-blocking write reported.
pub struct Delivery {
    /// The identifier of the connection that was visited.
    pub id: u32,
    /// Bytes written: the full payload length, or 0 for a skipped delivery.
    pub bytes: usize,
}

} // verus!
