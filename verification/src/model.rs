//! The mathematical model of the hub's state and of its operations.
//!
//! A state is two maps: peer id to peer record (joined rooms and liveness),
//! and room id to member set. The cross-registry invariant ties them: a peer
//! lists a room exactly when the room's member set lists the peer.

use vstd::prelude::*;

verus! {

/// The model of one peer: the rooms it subscribes to and its liveness flag.
#[verifier::ext_equal]
pub struct PeerModel {
    pub rooms: Set<Seq<u8>>,
    pub alive: bool,
}

/// The model of the whole hub.
#[verifier::ext_equal]
pub struct StateModel {
    pub peers: Map<u128, PeerModel>,
    pub rooms: Map<Seq<u8>, Set<u128>>,
}

impl StateModel {
    /// Whether any peer is a member of the set.
    pub open spec fn occupied(members: Set<u128>) -> bool {
        exists|p: u128| members.contains(p)
    }

    /// The member set of a room, or the empty set where the room is absent.
    pub open spec fn members_or_empty(self, r: Seq<u8>) -> Set<u128> {
        if self.rooms.contains_key(r) {
            self.rooms[r]
        } else {
            Set::empty()
        }
    }

    /// Both registries are finite, every membership set is finite, and the
    /// cross-registry invariant holds: a peer lists a room if and only if the
    /// room exists and lists the peer.
    pub open spec fn wf(self) -> bool {
        &&& self.peers.dom().finite()
        &&& self.rooms.dom().finite()
        &&& forall|p: u128|
            self.peers.contains_key(p) ==> (#[trigger] self.peers[p]).rooms.finite()
        &&& forall|r: Seq<u8>| self.rooms.contains_key(r) ==> (#[trigger] self.rooms[r]).finite()
        &&& forall|p: u128, r: Seq<u8>|
            self.peers.contains_key(p) && #[trigger] self.peers[p].rooms.contains(r)
                ==> self.rooms.contains_key(r) && self.rooms[r].contains(p)
        &&& forall|p: u128, r: Seq<u8>|
            self.rooms.contains_key(r) && #[trigger] self.rooms[r].contains(p)
                ==> self.peers.contains_key(p) && self.peers[p].rooms.contains(r)
    }

    /// Registering a connection: the peer appears with no rooms and the
    /// liveness flag set; any stale membership under the same id is gone.
    pub open spec fn after_add_peer(self, p: u128) -> StateModel {
        StateModel {
            peers: self.peers.insert(p, PeerModel { rooms: Set::empty(), alive: true }),
            rooms: Map::new(
                |r: Seq<u8>| self.rooms.contains_key(r),
                |r: Seq<u8>| self.rooms[r].remove(p),
            ),
        }
    }

    /// Deregistering a connection: the peer is gone from the peer registry
    /// and from every room's member set. Rooms themselves persist, even empty,
    /// until the next sweep.
    pub open spec fn after_remove_peer(self, p: u128) -> StateModel {
        StateModel {
            peers: self.peers.remove(p),
            rooms: Map::new(
                |r: Seq<u8>| self.rooms.contains_key(r),
                |r: Seq<u8>| self.rooms[r].remove(p),
            ),
        }
    }

    /// Setting a present peer's liveness flag.
    pub open spec fn after_set_alive(self, p: u128, alive: bool) -> StateModel {
        StateModel {
            peers: self.peers.insert(p, PeerModel { rooms: self.peers[p].rooms, alive }),
            rooms: self.rooms,
        }
    }

    /// A present peer joining a room: both sides gain the link, and the room
    /// is created on first join.
    pub open spec fn after_join(self, p: u128, r: Seq<u8>) -> StateModel {
        StateModel {
            peers: self.peers.insert(
                p,
                PeerModel { rooms: self.peers[p].rooms.insert(r), alive: self.peers[p].alive },
            ),
            rooms: self.rooms.insert(r, self.members_or_empty(r).insert(p)),
        }
    }

    /// A peer leaving a room: both sides lose the link. Where the peer is
    /// absent nothing changes; where only the room is absent the peer side
    /// alone is updated (which the invariant makes a no-op).
    pub open spec fn after_leave(self, p: u128, r: Seq<u8>) -> StateModel {
        if !self.peers.contains_key(p) {
            self
        } else {
            StateModel {
                peers: self.peers.insert(
                    p,
                    PeerModel { rooms: self.peers[p].rooms.remove(r), alive: self.peers[p].alive },
                ),
                rooms: if self.rooms.contains_key(r) {
                    self.rooms.insert(r, self.rooms[r].remove(p))
                } else {
                    self.rooms
                },
            }
        }
    }

    /// A present peer joining each listed room in order.
    pub open spec fn after_join_all(self, p: u128, ts: Seq<Seq<u8>>) -> StateModel
        decreases ts.len(),
    {
        if ts.len() == 0 {
            self
        } else {
            self.after_join(p, ts[0]).after_join_all(p, ts.drop_first())
        }
    }

    /// A peer leaving each listed room in order.
    pub open spec fn after_leave_all(self, p: u128, ts: Seq<Seq<u8>>) -> StateModel
        decreases ts.len(),
    {
        if ts.len() == 0 {
            self
        } else {
            self.after_leave(p, ts[0]).after_leave_all(p, ts.drop_first())
        }
    }

    /// The sweep: every room whose member set is empty is gone; occupied
    /// rooms and all peers are untouched.
    pub open spec fn after_sweep(self) -> StateModel {
        StateModel {
            peers: self.peers,
            rooms: Map::new(
                |r: Seq<u8>| self.rooms.contains_key(r) && Self::occupied(self.rooms[r]),
                |r: Seq<u8>| self.rooms[r],
            ),
        }
    }
}

impl StateModel {
    pub proof fn lemma_wf_after_add_peer(self, p: u128)
        requires
            self.wf(),
        ensures
            self.after_add_peer(p).wf(),
    {
        let s2 = self.after_add_peer(p);
        assert(s2.rooms.dom() =~= self.rooms.dom());
        assert forall|q: u128, r: Seq<u8>|
            s2.peers.contains_key(q) && #[trigger] s2.peers[q].rooms.contains(r)
                implies s2.rooms.contains_key(r) && s2.rooms[r].contains(q) by {
            assert(q != p);
            assert(self.peers[q].rooms.contains(r));
        }
    }

    pub proof fn lemma_wf_after_remove_peer(self, p: u128)
        requires
            self.wf(),
        ensures
            self.after_remove_peer(p).wf(),
    {
        let s2 = self.after_remove_peer(p);
        assert(s2.peers.dom() =~= self.peers.dom().remove(p));
        assert(s2.rooms.dom() =~= self.rooms.dom());
        assert forall|q: u128, r: Seq<u8>|
            s2.peers.contains_key(q) && #[trigger] s2.peers[q].rooms.contains(r)
                implies s2.rooms.contains_key(r) && s2.rooms[r].contains(q) by {
            assert(self.peers[q].rooms.contains(r));
        }
    }

    pub proof fn lemma_wf_after_set_alive(self, p: u128, alive: bool)
        requires
            self.wf(),
            self.peers.contains_key(p),
        ensures
            self.after_set_alive(p, alive).wf(),
    {
        let s2 = self.after_set_alive(p, alive);
        assert(s2.peers.dom() =~= self.peers.dom());
        assert forall|q: u128, r: Seq<u8>|
            s2.peers.contains_key(q) && #[trigger] s2.peers[q].rooms.contains(r)
                implies s2.rooms.contains_key(r) && s2.rooms[r].contains(q) by {
            assert(self.peers[q].rooms.contains(r));
        }
        assert forall|q: u128, r: Seq<u8>|
            s2.rooms.contains_key(r) && #[trigger] s2.rooms[r].contains(q)
                implies s2.peers.contains_key(q) && s2.peers[q].rooms.contains(r) by {
            assert(self.rooms[r].contains(q));
        }
    }

    pub proof fn lemma_wf_after_join(self, p: u128, r: Seq<u8>)
        requires
            self.wf(),
            self.peers.contains_key(p),
        ensures
            self.after_join(p, r).wf(),
    {
        let s2 = self.after_join(p, r);
        assert(s2.peers.dom() =~= self.peers.dom());
        assert(s2.rooms.dom() =~= self.rooms.dom().insert(r));
        assert forall|q: u128, t: Seq<u8>|
            s2.peers.contains_key(q) && #[trigger] s2.peers[q].rooms.contains(t)
                implies s2.rooms.contains_key(t) && s2.rooms[t].contains(q) by {
            if q == p && t == r {
            } else {
                assert(self.peers[q].rooms.contains(t));
            }
        }
        assert forall|q: u128, t: Seq<u8>|
            s2.rooms.contains_key(t) && #[trigger] s2.rooms[t].contains(q)
                implies s2.peers.contains_key(q) && s2.peers[q].rooms.contains(t) by {
            if t == r {
                if q != p {
                    assert(self.members_or_empty(r).contains(q));
                    assert(self.rooms[r].contains(q));
                }
            } else {
                assert(self.rooms[t].contains(q));
            }
        }
    }

    pub proof fn lemma_wf_after_leave(self, p: u128, r: Seq<u8>)
        requires
            self.wf(),
        ensures
            self.after_leave(p, r).wf(),
    {
        if self.peers.contains_key(p) {
            let s2 = self.after_leave(p, r);
            assert(s2.peers.dom() =~= self.peers.dom());
            assert(s2.rooms.dom() =~= self.rooms.dom());
            assert forall|q: u128, t: Seq<u8>|
                s2.peers.contains_key(q) && #[trigger] s2.peers[q].rooms.contains(t)
                    implies s2.rooms.contains_key(t) && s2.rooms[t].contains(q) by {
                assert(self.peers[q].rooms.contains(t));
            }
            assert forall|q: u128, t: Seq<u8>|
                s2.rooms.contains_key(t) && #[trigger] s2.rooms[t].contains(q)
                    implies s2.peers.contains_key(q) && s2.peers[q].rooms.contains(t) by {
                assert(self.rooms[t].contains(q));
            }
        }
    }

    /// Leaving a room that does not exist changes nothing: by the invariant
    /// the peer never listed it.
    pub proof fn lemma_leave_absent_room(self, p: u128, r: Seq<u8>)
        requires
            self.wf(),
            !self.rooms.contains_key(r),
        ensures
            self.after_leave(p, r) == self,
    {
        if self.peers.contains_key(p) {
            assert(self.peers[p].rooms.remove(r) =~= self.peers[p].rooms);
            assert(self.after_leave(p, r).peers =~~= self.peers);
            assert(self.after_leave(p, r) =~~= self);
        }
    }

    pub proof fn lemma_wf_after_sweep(self)
        requires
            self.wf(),
        ensures
            self.after_sweep().wf(),
    {
        let s2 = self.after_sweep();
        broadcast use vstd::set_lib::lemma_set_subset_finite;

        assert(s2.rooms.dom().subset_of(self.rooms.dom()));
        assert forall|q: u128, t: Seq<u8>|
            s2.peers.contains_key(q) && #[trigger] s2.peers[q].rooms.contains(t)
                implies s2.rooms.contains_key(t) && s2.rooms[t].contains(q) by {
            assert(self.rooms[t].contains(q));
            assert(Self::occupied(self.rooms[t]));
        }
        assert forall|q: u128, t: Seq<u8>|
            s2.rooms.contains_key(t) && #[trigger] s2.rooms[t].contains(q)
                implies s2.peers.contains_key(q) && s2.peers[q].rooms.contains(t) by {
            assert(self.rooms[t].contains(q));
        }
    }
}

/// The views of a sequence's elements, in order.
pub open spec fn id_views<T: View>(s: Seq<T>) -> Seq<<T as View>::V> {
    s.map_values(|t: T| t@)
}

/// The set of views of a sequence's elements.
pub open spec fn id_set<T: View>(s: Seq<T>) -> Set<<T as View>::V> {
    id_views(s).to_set()
}

/// No two elements share a view.
pub open spec fn distinct_ids<T: View>(s: Seq<T>) -> bool {
    forall|i: int, j: int| 0 <= i < j < s.len() ==> s[i]@ != s[j]@
}

pub proof fn lemma_id_set_contains<T: View>(s: Seq<T>, x: <T as View>::V)
    ensures
        id_set(s).contains(x) <==> exists|i: int| 0 <= i < s.len() && s[i]@ == x,
{
    if id_set(s).contains(x) {
        let j = choose|j: int| 0 <= j < id_views(s).len() && id_views(s)[j] == x;
        assert(s[j]@ == x);
    }
    if exists|i: int| 0 <= i < s.len() && s[i]@ == x {
        let i = choose|i: int| 0 <= i < s.len() && s[i]@ == x;
        assert(id_views(s)[i] == x);
        assert(id_views(s).contains(x));
    }
}

pub proof fn lemma_id_set_push<T: View>(s: Seq<T>, t: T)
    ensures
        id_set(s.push(t)) =~= id_set(s).insert(t@),
{
    assert forall|x: <T as View>::V| #[trigger]
        id_set(s.push(t)).contains(x) implies id_set(s).insert(t@).contains(x) by {
        lemma_id_set_contains(s.push(t), x);
        let i = choose|i: int| 0 <= i < s.push(t).len() && s.push(t)[i]@ == x;
        if i < s.len() {
            lemma_id_set_contains(s, x);
        }
    }
    assert forall|x: <T as View>::V| #[trigger]
        id_set(s).insert(t@).contains(x) implies id_set(s.push(t)).contains(x) by {
        lemma_id_set_contains(s.push(t), x);
        if x == t@ {
            assert(s.push(t)[s.len() as int]@ == x);
        } else {
            lemma_id_set_contains(s, x);
            let i = choose|i: int| 0 <= i < s.len() && s[i]@ == x;
            assert(s.push(t)[i]@ == x);
        }
    }
}

/// The sequence after `swap_remove(i)`: the last element moves into slot `i`.
pub open spec fn swap_removed<T>(s: Seq<T>, i: int) -> Seq<T> {
    s.update(i, s.last()).drop_last()
}

pub proof fn lemma_id_set_swap_remove<T: View>(s: Seq<T>, i: int)
    requires
        distinct_ids(s),
        0 <= i < s.len(),
    ensures
        distinct_ids(swap_removed(s, i)),
        id_set(swap_removed(s, i)) =~= id_set(s).remove(s[i]@),
{
    let sr = swap_removed(s, i);
    assert forall|x: <T as View>::V| #[trigger]
        id_set(sr).contains(x) implies id_set(s).remove(s[i]@).contains(x) by {
        lemma_id_set_contains(sr, x);
        let j = choose|j: int| 0 <= j < sr.len() && sr[j]@ == x;
        if j == i {
            assert(s[s.len() - 1]@ == x);
        } else {
            assert(s[j]@ == x);
        }
        lemma_id_set_contains(s, x);
    }
    assert forall|x: <T as View>::V| #[trigger]
        id_set(s).remove(s[i]@).contains(x) implies id_set(sr).contains(x) by {
        lemma_id_set_contains(s, x);
        let j = choose|j: int| 0 <= j < s.len() && s[j]@ == x;
        if j == s.len() - 1 {
            if i < s.len() - 1 {
                assert(sr[i]@ == x);
            }
        } else {
            assert(sr[j]@ == x);
        }
        lemma_id_set_contains(sr, x);
    }
}

} // verus!
