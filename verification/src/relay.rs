//! The relay core: the single owner of the connection registry. It assigns
//! every connection a fresh id, decides which connections each frame is
//! fanned out to (all registered ones, the sender included), and removes a
//! connection the first time it fails. Removal is idempotent and touches no
//! other connection. The surrounding event loop performs the reads and
//! writes; every decision is taken here.

use vstd::prelude::*;

use crate::packet::Packet;

verus! {

/// A registry with one id removed: the ids kept keep their order.
pub open spec fn remove_id(s: Seq<u64>, id: u64) -> Seq<u64> {
    s.filter(|x: u64| x != id)
}

/// One thing the event loop tells the relay core.
pub enum RelayEvent {
    /// A new connection was accepted.
    Connected,
    /// A connection's ingress worker decoded one packet.
    Frame { origin: u64, packet: Packet },
    /// A connection's read side reached end of stream or failed, or a write
    /// to it failed.
    Disconnected { id: u64 },
}

/// What the event loop must do next.
pub enum RelayAction {
    /// Bind the new connection to this fresh id.
    Registered { id: u64 },
    /// Write the packet's frame to every one of these connections; report a
    /// failing one back as `Disconnected`, and keep writing to the rest.
    Deliver { targets: Vec<u64>, packet: Packet },
    /// The connection is gone from the registry; release its resources.
    Removed { id: u64 },
}

/// The registry of live connections and the source of fresh ids.
pub struct RelayCore {
    next_id: u64,
    live: Vec<u64>,
}

impl RelayCore {
    /// The ids of the currently registered connections, in registration
    /// order.
    pub closed spec fn ids(&self) -> Seq<u64> {
        self.live@
    }

    /// The id the next registered connection will get. Ids count up and are
    /// never reused, even after their connection is removed.
    pub closed spec fn next_conn_id(&self) -> u64 {
        self.next_id
    }

    /// Registered ids are strictly increasing, hence unique, and all below
    /// the next id to be assigned.
    pub open spec fn wf(&self) -> bool {
        &&& forall|i: int, j: int| 0 <= i < j < self.ids().len() ==> self.ids()[i] < self.ids()[j]
        &&& forall|i: int| 0 <= i < self.ids().len() ==> self.ids()[i] < self.next_conn_id()
    }

    /// An empty registry.
    pub fn new() -> (r: Self)
        ensures
            r.wf(),
            r.ids() == Seq::<u64>::empty(),
            r.next_conn_id() == 0,
    {
        RelayCore { next_id: 0, live: Vec::new() }
    }

    /// Registers a new connection: assigns the next id, never one assigned
    /// before, and adds it to the registry. Always succeeds.
    pub fn register(&mut self) -> (id: u64)
        requires
            old(self).wf(),
            old(self).next_conn_id() < u64::MAX,
        ensures
            final(self).wf(),
            id == old(self).next_conn_id(),
            !old(self).ids().contains(id),
            final(self).ids() == old(self).ids().push(id),
            final(self).next_conn_id() == old(self).next_conn_id() + 1,
    {
        let id = self.next_id;
        self.live.push(id);
        self.next_id = self.next_id + 1;
        proof {
            let old_ids = old(self).ids();
            let new_ids = self.ids();
            assert(new_ids == old_ids.push(id));
            assert(!old_ids.contains(id)) by {
                if old_ids.contains(id) {
                    let k = choose|k: int| 0 <= k < old_ids.len() && old_ids[k] == id;
                    assert(old_ids[k] < id);
                }
            }
            assert forall|i: int, j: int|
                0 <= i < j < new_ids.len() implies new_ids[i] < new_ids[j] by {
                if j < old_ids.len() {
                    assert(old_ids[i] < old_ids[j]);
                } else {
                    assert(old_ids[i] < id);
                }
            }
            assert forall|i: int|
                0 <= i < new_ids.len() implies new_ids[i] < self.next_conn_id() by {
                if i < old_ids.len() {
                    assert(old_ids[i] < id);
                }
            }
        }
        id
    }

    /// Whether an id is currently registered.
    pub fn contains(&self, id: u64) -> (r: bool)
        ensures
            r == self.ids().contains(id),
    {
        let n = self.live.len();
        let mut i: usize = 0;
        while i < n
            invariant
                n == self.live@.len(),
                i <= n,
                forall|k: int| 0 <= k < i ==> self.live@[k] != id,
            decreases n - i,
        {
            if self.live[i] == id {
                return true;
            }
            i = i + 1;
        }
        false
    }

    /// The id the next registered connection would get. Callers use this to
    /// check that the id space is not exhausted before registering.
    pub fn upcoming_id(&self) -> (r: u64)
        ensures
            r == self.next_conn_id(),
    {
        self.next_id
    }

    /// How many connections are registered.
    pub fn len(&self) -> (n: usize)
        ensures
            n == self.ids().len(),
    {
        self.live.len()
    }

    /// Removes a connection from the registry. Removing an id that is not
    /// registered, or was removed already, is a no-op; other ids are never
    /// affected.
    pub fn remove(&mut self, id: u64)
        requires
            old(self).wf(),
        ensures
            final(self).wf(),
            final(self).ids() == remove_id(old(self).ids(), id),
            final(self).next_conn_id() == old(self).next_conn_id(),
    {
        let n = self.live.len();
        let mut i: usize = 0;
        while i < n
            invariant
                old(self).wf(),
                self.live@ == old(self).live@,
                self.next_id == old(self).next_id,
                n == self.live@.len(),
                i <= n,
                forall|k: int| 0 <= k < i ==> self.live@[k] != id,
            decreases n - i,
        {
            if self.live[i] == id {
                proof {
                    let s = self.ids();
                    assert(s == old(self).ids());
                    assert forall|k: int|
                        0 <= k < s.len() && k != i as int implies s[k] != id by {
                        if k < i as int {
                            assert(self.live@[k] != id);
                        } else {
                            assert(s[i as int] < s[k]);
                        }
                    }
                }
                self.live.remove(i);
                proof {
                    lemma_remove_at_is_remove_id(old(self).ids(), i as int, id);
                    let s = old(self).ids();
                    let t = self.ids();
                    assert(t == s.remove(i as int));
                    assert forall|a: int, b: int| 0 <= a < b < t.len() implies t[a] < t[b] by {
                        let sa: int = if a < i as int {
                            a
                        } else {
                            a + 1
                        };
                        let sb: int = if b < i as int {
                            b
                        } else {
                            b + 1
                        };
                        assert(t[a] == s[sa]);
                        assert(t[b] == s[sb]);
                        assert(s[sa] < s[sb]);
                    }
                    assert forall|a: int|
                        0 <= a < t.len() implies t[a] < self.next_conn_id() by {
                        let sa: int = if a < i as int {
                            a
                        } else {
                            a + 1
                        };
                        assert(t[a] == s[sa]);
                        assert(s[sa] < old(self).next_conn_id());
                    }
                }
                return;
            }
            i = i + 1;
        }
        proof {
            assert(self.ids() == old(self).ids());
            assert forall|k: int| 0 <= k < self.ids().len() implies self.ids()[k] != id by {
                assert(self.live@[k] != id);
            }
            lemma_remove_id_all_kept(self.ids(), id);
        }
    }

    /// The fan-out plan for one frame: every registered connection, the
    /// sender included, exactly once, in registration order.
    pub fn broadcast_targets(&self) -> (v: Vec<u64>)
        requires
            self.wf(),
        ensures
            v@ == self.ids(),
            v@.no_duplicates(),
    {
        let n = self.live.len();
        let mut v: Vec<u64> = Vec::new();
        let mut i: usize = 0;
        while i < n
            invariant
                n == self.live@.len(),
                i <= n,
                v@ == self.live@.take(i as int),
            decreases n - i,
        {
            v.push(self.live[i]);
            proof {
                assert(self.live@.take(i as int).push(self.live@[i as int]) =~= self.live@.take(
                    i as int + 1,
                ));
            }
            i = i + 1;
        }
        proof {
            assert(self.live@.take(n as int) =~= self.live@);
            assert(self.ids() == self.live@);
            assert forall|i: int, j: int|
                0 <= i < j < self.live@.len() implies self.live@[i] < self.live@[j] by {
                assert(self.ids()[i] < self.ids()[j]);
            }
            lemma_strictly_increasing_no_duplicates(self.live@);
        }
        v
    }

    /// Processes one event at the relay's single serialization point and
    /// returns the action the event loop must carry out.
    pub fn step(&mut self, event: RelayEvent) -> (action: RelayAction)
        requires
            old(self).wf(),
            (event matches RelayEvent::Connected ==> old(self).next_conn_id() < u64::MAX),
        ensures
            final(self).wf(),
            (match event {
                RelayEvent::Connected => {
                    &&& action matches RelayAction::Registered { id }
                    &&& id == old(self).next_conn_id()
                    &&& !old(self).ids().contains(id)
                    &&& final(self).ids() == old(self).ids().push(id)
                    &&& final(self).next_conn_id() == old(self).next_conn_id() + 1
                },
                RelayEvent::Frame { origin, packet } => {
                    &&& action matches RelayAction::Deliver { targets, packet: delivered }
                    &&& targets@ == old(self).ids()
                    &&& targets@.no_duplicates()
                    &&& delivered == packet
                    &&& final(self).ids() == old(self).ids()
                    &&& final(self).next_conn_id() == old(self).next_conn_id()
                },
                RelayEvent::Disconnected { id } => {
                    &&& action matches RelayAction::Removed { id: rid }
                    &&& rid == id
                    &&& final(self).ids() == remove_id(old(self).ids(), id)
                    &&& final(self).next_conn_id() == old(self).next_conn_id()
                },
            }),
    {
        match event {
            RelayEvent::Connected => {
                let id = self.register();
                RelayAction::Registered { id }
            },
            RelayEvent::Frame { origin: _, packet } => {
                let targets = self.broadcast_targets();
                RelayAction::Deliver { targets, packet }
            },
            RelayEvent::Disconnected { id } => {
                self.remove(id);
                RelayAction::Removed { id }
            },
        }
    }
}

/// A strictly increasing sequence holds no id twice.
proof fn lemma_strictly_increasing_no_duplicates(s: Seq<u64>)
    requires
        forall|i: int, j: int| 0 <= i < j < s.len() ==> s[i] < s[j],
    ensures
        s.no_duplicates(),
{
    assert forall|i: int, j: int|
        0 <= i < s.len() && 0 <= j < s.len() && i != j implies s[i] != s[j] by {
        if i < j {
            assert(s[i] < s[j]);
        } else {
            assert(s[j] < s[i]);
        }
    }
}

/// Removing from a sequence that holds no id at all leaves it unchanged.
proof fn lemma_remove_id_all_kept(s: Seq<u64>, id: u64)
    requires
        forall|k: int| 0 <= k < s.len() ==> s[k] != id,
    ensures
        remove_id(s, id) == s,
    decreases s.len(),
{
    reveal(Seq::filter);
    if s.len() == 0 {
        assert(remove_id(s, id) =~= s);
    } else {
        lemma_remove_id_all_kept(s.drop_last(), id);
        assert(remove_id(s, id) =~= s);
    }
}

/// Dropping the one position holding `id` from a sequence that holds it
/// nowhere else is the same as filtering `id` out.
proof fn lemma_remove_at_is_remove_id(s: Seq<u64>, at: int, id: u64)
    requires
        0 <= at < s.len(),
        s[at] == id,
        forall|k: int| 0 <= k < s.len() && k != at ==> s[k] != id,
    ensures
        s.remove(at) == remove_id(s, id),
    decreases s.len(),
{
    reveal(Seq::filter);
    if at == s.len() - 1 {
        lemma_remove_id_all_kept(s.drop_last(), id);
        assert(s.remove(at) =~= s.drop_last());
        assert(remove_id(s, id) =~= s.drop_last());
    } else {
        lemma_remove_at_is_remove_id(s.drop_last(), at, id);
        assert(s.remove(at).drop_last() =~= s.drop_last().remove(at));
        assert(remove_id(s, id) =~= remove_id(s.drop_last(), id).push(s.last()));
        assert(s.remove(at) =~= s.drop_last().remove(at).push(s.last()));
    }
}

/// Idempotent removal: removing the same id a second time changes nothing.
pub proof fn lemma_remove_idempotent(s: Seq<u64>, id: u64)
    ensures
        remove_id(remove_id(s, id), id) == remove_id(s, id),
{
    broadcast use vstd::seq_lib::group_filter_ensures;

    lemma_remove_id_all_kept(remove_id(s, id), id);
}

/// Removing an id that was never registered changes nothing.
pub proof fn lemma_remove_absent(s: Seq<u64>, id: u64)
    requires
        !s.contains(id),
    ensures
        remove_id(s, id) == s,
{
    assert forall|k: int| 0 <= k < s.len() implies s[k] != id by {
        if s[k] == id {
            assert(s.contains(id));
        }
    }
    lemma_remove_id_all_kept(s, id);
}

/// Disconnect isolation: removing one id leaves every other id's membership
/// in the registry exactly as it was.
pub proof fn lemma_remove_preserves_others(s: Seq<u64>, removed: u64, other: u64)
    requires
        other != removed,
    ensures
        remove_id(s, removed).contains(other) == s.contains(other),
    decreases s.len(),
{
    reveal(Seq::filter);
    if s.len() == 0 {
    } else {
        let dl = s.drop_last();
        let last = s.last();
        lemma_remove_preserves_others(dl, removed, other);
        if last != removed {
            assert(remove_id(s, removed) == remove_id(dl, removed).push(last));
            if s.contains(other) {
                let k = choose|k: int| 0 <= k < s.len() && s[k] == other;
                if k < s.len() - 1 {
                    assert(dl[k] == other);
                    assert(dl.contains(other));
                    let j = choose|j: int|
                        0 <= j < remove_id(dl, removed).len() && remove_id(dl, removed)[j]
                            == other;
                    assert(remove_id(s, removed)[j] == other);
                } else {
                    assert(remove_id(s, removed).last() == other);
                }
                assert(remove_id(s, removed).contains(other));
            }
            if remove_id(s, removed).contains(other) {
                let j = choose|j: int|
                    0 <= j < remove_id(s, removed).len() && remove_id(s, removed)[j] == other;
                if j < remove_id(dl, removed).len() {
                    assert(remove_id(dl, removed)[j] == other);
                    assert(remove_id(dl, removed).contains(other));
                    let k = choose|k: int| 0 <= k < dl.len() && dl[k] == other;
                    assert(s[k] == other);
                } else {
                    assert(s[s.len() - 1] == other);
                }
                assert(s.contains(other));
            }
        } else {
            assert(remove_id(s, removed) == remove_id(dl, removed));
            if s.contains(other) {
                let k = choose|k: int| 0 <= k < s.len() && s[k] == other;
                assert(k < s.len() - 1);
                assert(dl[k] == other);
                assert(dl.contains(other));
            }
            if dl.contains(other) {
                let k = choose|k: int| 0 <= k < dl.len() && dl[k] == other;
                assert(s[k] == other);
                assert(s.contains(other));
            }
        }
    }
}

} // verus!
