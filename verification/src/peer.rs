//! The peer registry: one record per live connection, keyed by peer id.
//!
//! The registry owns each peer's joined-room set, its liveness flag and its
//! outbound handle. Records live in a vector with pairwise-distinct ids; the
//! registry's view is the map from peer id to peer model.

use vstd::prelude::*;

use crate::ids::{PeerId, RoomId};
use crate::model::{distinct_ids, id_set, lemma_id_set_contains, lemma_id_set_push,
    lemma_id_set_swap_remove, swap_removed, PeerModel};
use crate::outbound::{push_frame, Outbound};
use crate::SignalError;

verus! {

/// One live connection: its id, the rooms it subscribes to, the heartbeat
/// liveness flag, and the handle frames are pushed through.
pub struct Peer {
    pub id: PeerId,
    pub rooms: Vec<RoomId>,
    pub alive: bool,
    pub conn: Outbound,
}

impl View for Peer {
    type V = PeerModel;

    open spec fn view(&self) -> PeerModel {
        PeerModel { rooms: id_set(self.rooms@), alive: self.alive }
    }
}

pub open spec fn peer_has(s: Seq<Peer>, id: u128) -> bool {
    exists|i: int| 0 <= i < s.len() && s[i].id@ == id
}

pub open spec fn peer_index(s: Seq<Peer>, id: u128) -> int {
    choose|i: int| 0 <= i < s.len() && s[i].id@ == id
}

pub open spec fn peers_distinct(s: Seq<Peer>) -> bool {
    forall|i: int, j: int| 0 <= i < j < s.len() ==> s[i].id@ != s[j].id@
}

/// The map a sequence of peer records stands for.
pub open spec fn peers_map(s: Seq<Peer>) -> Map<u128, PeerModel> {
    Map::new(|id: u128| peer_has(s, id), |id: u128| s[peer_index(s, id)]@)
}

/// With distinct ids, the record an id selects is the one at its index.
pub proof fn lemma_peer_index(s: Seq<Peer>, i: int)
    requires
        peers_distinct(s),
        0 <= i < s.len(),
    ensures
        peer_has(s, s[i].id@),
        peer_index(s, s[i].id@) == i,
        peers_map(s)[s[i].id@] == s[i]@,
{
    assert(peer_has(s, s[i].id@));
    let j = peer_index(s, s[i].id@);
    if j != i {
        if j < i {
            assert(s[j].id@ != s[i].id@);
        } else {
            assert(s[i].id@ != s[j].id@);
        }
    }
}

pub proof fn lemma_peers_push(s: Seq<Peer>, p: Peer)
    requires
        peers_distinct(s),
        !peer_has(s, p.id@),
    ensures
        peers_distinct(s.push(p)),
        peers_map(s.push(p)) =~= peers_map(s).insert(p.id@, p@),
{
    let sp = s.push(p);
    assert forall|i: int, j: int| 0 <= i < j < sp.len() implies sp[i].id@ != sp[j].id@ by {
        if j == s.len() {
            assert(sp[i] == s[i]);
            if sp[i].id@ == p.id@ {
                assert(peer_has(s, p.id@));
            }
        }
    }
    let m1 = peers_map(sp);
    let m2 = peers_map(s).insert(p.id@, p@);
    assert forall|id: u128| #[trigger] m1.contains_key(id) implies m2.contains_key(id) && m1[id]
        == m2[id] by {
        let i = peer_index(sp, id);
        assert(0 <= i < sp.len() && sp[i].id@ == id);
        lemma_peer_index(sp, i);
        if i == s.len() {
            assert(m1[id] == p@);
        } else {
            assert(sp[i] == s[i]);
            lemma_peer_index(s, i);
        }
    }
    assert forall|id: u128| #[trigger] m2.contains_key(id) implies m1.contains_key(id) by {
        if id == p.id@ {
            assert(sp[s.len() as int].id@ == id);
        } else {
            let i = peer_index(s, id);
            assert(sp[i].id@ == id);
        }
    }
}

pub proof fn lemma_peers_swap_remove(s: Seq<Peer>, i: int)
    requires
        peers_distinct(s),
        0 <= i < s.len(),
    ensures
        peers_distinct(swap_removed(s, i)),
        peers_map(swap_removed(s, i)) =~= peers_map(s).remove(s[i].id@),
{
    let sr = swap_removed(s, i);
    assert forall|a: int, b: int| 0 <= a < b < sr.len() implies sr[a].id@ != sr[b].id@ by {
        let ra: int = if a == i { s.len() - 1 } else { a };
        let rb: int = if b == i { s.len() - 1 } else { b };
        assert(sr[a] == s[ra] && sr[b] == s[rb]);
    }
    let m1 = peers_map(sr);
    let m2 = peers_map(s).remove(s[i].id@);
    assert forall|id: u128| #[trigger] m1.contains_key(id) implies m2.contains_key(id) && m1[id]
        == m2[id] by {
        let j = peer_index(sr, id);
        assert(0 <= j < sr.len() && sr[j].id@ == id);
        lemma_peer_index(sr, j);
        let rj: int = if j == i {
            s.len() - 1
        } else {
            j
        };
        assert(sr[j] == s[rj]);
        lemma_peer_index(s, rj);
    }
    assert forall|id: u128| #[trigger] m2.contains_key(id) implies m1.contains_key(id) by {
        let j = peer_index(s, id);
        assert(0 <= j < s.len() && s[j].id@ == id);
        lemma_peer_index(s, j);
        if j == s.len() - 1 {
            assert(j != i);
            assert(sr[i] == s[j]);
        } else {
            assert(sr[j] == s[j]);
        }
    }
}

/// The registry of live peers.
pub struct PeerRegistry {
    entries: Vec<Peer>,
}

impl View for PeerRegistry {
    type V = Map<u128, PeerModel>;

    closed spec fn view(&self) -> Map<u128, PeerModel> {
        peers_map(self.entries@)
    }
}

impl PeerRegistry {
    /// Record ids are pairwise distinct and each record's room list repeats
    /// no room.
    pub closed spec fn wf(self) -> bool {
        &&& peers_distinct(self.entries@)
        &&& forall|i: int|
            0 <= i < self.entries@.len() ==> distinct_ids(
                (#[trigger] self.entries@[i]).rooms@,
            )
    }

    /// An empty registry.
    pub fn new() -> (r: PeerRegistry)
        ensures
            r.wf(),
            r@ == Map::<u128, PeerModel>::empty(),
    {
        let r = PeerRegistry { entries: Vec::new() };
        proof {
            assert(r@ =~= Map::<u128, PeerModel>::empty());
        }
        r
    }

    /// The index of the record with this id, if any.
    fn find(&self, id: PeerId) -> (r: Option<usize>)
        requires
            self.wf(),
        ensures
            match r {
                Some(i) => i < self.entries@.len() && self.entries@[i as int].id@ == id@
                    && self@.contains_key(id@),
                None => !self@.contains_key(id@),
            },
    {
        let mut i: usize = 0;
        while i < self.entries.len()
            invariant
                0 <= i <= self.entries@.len(),
                forall|k: int| 0 <= k < i ==> self.entries@[k].id@ != id@,
            decreases self.entries@.len() - i,
        {
            if self.entries[i].id.value == id.value {
                return Some(i);
            }
            i = i + 1;
        }
        None
    }

    /// Whether a peer with this id is registered.
    pub fn contains(&self, id: PeerId) -> (b: bool)
        requires
            self.wf(),
        ensures
            b == self@.contains_key(id@),
    {
        self.find(id).is_some()
    }

    /// Registers a fresh peer: no rooms joined, liveness flag set.
    pub fn insert_new(&mut self, id: PeerId, conn: Outbound)
        requires
            old(self).wf(),
            !old(self)@.contains_key(id@),
        ensures
            final(self).wf(),
            final(self)@ == old(self)@.insert(
                id@,
                PeerModel { rooms: Set::empty(), alive: true },
            ),
    {
        let p = Peer { id, rooms: Vec::new(), alive: true, conn };
        proof {
            lemma_peers_push(self.entries@, p);
            assert(p@.rooms =~= Set::<Seq<u8>>::empty());
            assert(p@ =~~= (PeerModel { rooms: Set::empty(), alive: true }));
        }
        self.entries.push(p);
    }

    /// Deregisters a peer, handing back the rooms it had joined for the
    /// cascade; reports `PeerNotFound` where the id is already gone.
    pub fn remove(&mut self, id: PeerId) -> (r: Result<Vec<RoomId>, SignalError>)
        requires
            old(self).wf(),
        ensures
            final(self).wf(),
            r is Ok <==> old(self)@.contains_key(id@),
            r is Err ==> *final(self) == *old(self) && r == Err::<Vec<RoomId>, SignalError>(
                SignalError::PeerNotFound,
            ),
            r matches Ok(rooms) ==> final(self)@ == old(self)@.remove(id@) && distinct_ids(rooms@)
                && id_set(rooms@) == old(self)@[id@].rooms,
    {
        match self.find(id) {
            None => Err(SignalError::PeerNotFound),
            Some(i) => {
                proof {
                    lemma_peer_index(self.entries@, i as int);
                    lemma_peers_swap_remove(self.entries@, i as int);
                }
                let p = self.entries.swap_remove(i);
                Ok(p.rooms)
            },
        }
    }

    /// Sets a present peer's liveness flag.
    pub fn set_alive(&mut self, id: PeerId, alive: bool) -> (r: Result<(), SignalError>)
        requires
            old(self).wf(),
        ensures
            final(self).wf(),
            r is Ok <==> old(self)@.contains_key(id@),
            r is Err ==> *final(self) == *old(self) && r == Err::<(), SignalError>(
                SignalError::PeerNotFound,
            ),
            r is Ok ==> final(self)@ == old(self)@.insert(
                id@,
                PeerModel { rooms: old(self)@[id@].rooms, alive },
            ),
    {
        let ghost m0 = self@;
        match self.find(id) {
            None => Err(SignalError::PeerNotFound),
            Some(i) => {
                proof {
                    lemma_peer_index(self.entries@, i as int);
                    lemma_peers_swap_remove(self.entries@, i as int);
                }
                let p = self.entries.swap_remove(i);
                let p2 = Peer { id: p.id, rooms: p.rooms, alive, conn: p.conn };
                proof {
                    lemma_peers_push(self.entries@, p2);
                    assert(m0.remove(id@).insert(id@, p2@) =~= m0.insert(id@, p2@));
                }
                self.entries.push(p2);
                Ok(())
            },
        }
    }

    /// Whether the peer is present with its liveness flag set; `false` for an
    /// unknown id.
    pub fn is_alive(&self, id: PeerId) -> (b: bool)
        requires
            self.wf(),
        ensures
            b == (self@.contains_key(id@) && self@[id@].alive),
    {
        match self.find(id) {
            None => false,
            Some(i) => {
                proof {
                    lemma_peer_index(self.entries@, i as int);
                }
                self.entries[i].alive
            },
        }
    }

    /// Adds a room to a present peer's joined set.
    pub fn add_room(&mut self, id: PeerId, room: &RoomId) -> (r: Result<(), SignalError>)
        requires
            old(self).wf(),
        ensures
            final(self).wf(),
            r is Ok <==> old(self)@.contains_key(id@),
            r is Err ==> *final(self) == *old(self) && r == Err::<(), SignalError>(
                SignalError::PeerNotFound,
            ),
            r is Ok ==> final(self)@ == old(self)@.insert(
                id@,
                PeerModel {
                    rooms: old(self)@[id@].rooms.insert(room@),
                    alive: old(self)@[id@].alive,
                },
            ),
    {
        let ghost m0 = self@;
        match self.find(id) {
            None => Err(SignalError::PeerNotFound),
            Some(i) => {
                proof {
                    lemma_peer_index(self.entries@, i as int);
                    lemma_peers_swap_remove(self.entries@, i as int);
                }
                let mut p = self.entries.swap_remove(i);
                let ghost rooms0 = p.rooms@;
                if find_room(&p.rooms, room).is_none() {
                    p.rooms.push(room.duplicate());
                    proof {
                        lemma_id_set_push(rooms0, p.rooms@.last());
                        assert forall|a: int, b: int|
                            0 <= a < b < p.rooms@.len() implies p.rooms@[a]@ != p.rooms@[b]@ by {
                            if b == rooms0.len() {
                                lemma_id_set_contains(rooms0, p.rooms@[a]@);
                            }
                        }
                    }
                } else {
                    proof {
                        lemma_id_set_contains(rooms0, room@);
                        assert(id_set(rooms0).insert(room@) =~= id_set(rooms0));
                    }
                }
                proof {
                    lemma_peers_push(self.entries@, p);
                    assert(p@ =~~= (PeerModel { rooms: m0[id@].rooms.insert(room@), alive: m0[id@].alive }));
                    assert(m0.remove(id@).insert(id@, p@) =~= m0.insert(id@, p@));
                }
                self.entries.push(p);
                Ok(())
            },
        }
    }

    /// Removes a room from a present peer's joined set; a room the peer never
    /// joined makes this a no-op on that set.
    pub fn remove_room(&mut self, id: PeerId, room: &RoomId) -> (r: Result<(), SignalError>)
        requires
            old(self).wf(),
        ensures
            final(self).wf(),
            r is Ok <==> old(self)@.contains_key(id@),
            r is Err ==> *final(self) == *old(self) && r == Err::<(), SignalError>(
                SignalError::PeerNotFound,
            ),
            r is Ok ==> final(self)@ == old(self)@.insert(
                id@,
                PeerModel {
                    rooms: old(self)@[id@].rooms.remove(room@),
                    alive: old(self)@[id@].alive,
                },
            ),
    {
        let ghost m0 = self@;
        match self.find(id) {
            None => Err(SignalError::PeerNotFound),
            Some(i) => {
                proof {
                    lemma_peer_index(self.entries@, i as int);
                    lemma_peers_swap_remove(self.entries@, i as int);
                }
                let mut p = self.entries.swap_remove(i);
                let ghost rooms0 = p.rooms@;
                match find_room(&p.rooms, room) {
                    Some(k) => {
                        proof {
                            lemma_id_set_swap_remove(rooms0, k as int);
                        }
                        let _ = p.rooms.swap_remove(k);
                    },
                    None => {
                        proof {
                            lemma_id_set_contains(rooms0, room@);
                            assert(id_set(rooms0).remove(room@) =~= id_set(rooms0));
                        }
                    },
                }
                proof {
                    lemma_peers_push(self.entries@, p);
                    assert(p@ =~~= (PeerModel { rooms: m0[id@].rooms.remove(room@), alive: m0[id@].alive }));
                    assert(m0.remove(id@).insert(id@, p@) =~= m0.insert(id@, p@));
                }
                self.entries.push(p);
                Ok(())
            },
        }
    }

    /// Pushes one frame to a present peer's transport. `SendFailed` reports a
    /// closed outbound handle; whether the push succeeds depends on the
    /// receiving half, so success is not promised for a present peer.
    pub fn send(&self, id: PeerId, frame: Vec<u8>) -> (r: Result<(), SignalError>)
        requires
            self.wf(),
        ensures
            r == Err::<(), SignalError>(SignalError::PeerNotFound) <==> !self@.contains_key(id@),
            self@.contains_key(id@) ==> r == Ok::<(), SignalError>(()) || r == Err::<(),
                SignalError,
            >(SignalError::SendFailed),
    {
        match self.find(id) {
            None => Err(SignalError::PeerNotFound),
            Some(i) => {
                if push_frame(&self.entries[i].conn, frame) {
                    Ok(())
                } else {
                    Err(SignalError::SendFailed)
                }
            },
        }
    }
}


/// A read-only view of one peer for introspection: its id, joined rooms and
/// liveness flag.
pub struct PeerSnapshot {
    pub id: PeerId,
    pub rooms: Vec<RoomId>,
    pub alive: bool,
}

impl PeerRegistry {
    /// A snapshot of every registered peer. Each entry reports one peer of
    /// the registry faithfully, and every registered peer appears exactly
    /// once.
    pub fn snapshot(&self) -> (r: Vec<PeerSnapshot>)
        requires
            self.wf(),
        ensures
            forall|k: int|
                0 <= k < r@.len() ==> {
                    &&& self@.contains_key((#[trigger] r@[k]).id@)
                    &&& id_set(r@[k].rooms@) == self@[r@[k].id@].rooms
                    &&& r@[k].alive == self@[r@[k].id@].alive
                },
            forall|p: u128|
                self@.contains_key(p) ==> exists|k: int|
                    0 <= k < r@.len() && (#[trigger] r@[k]).id@ == p,
            forall|k1: int, k2: int| 0 <= k1 < k2 < r@.len() ==> r@[k1].id@ != r@[k2].id@,
    {
        let mut out: Vec<PeerSnapshot> = Vec::new();
        let mut i: usize = 0;
        while i < self.entries.len()
            invariant
                self.wf(),
                0 <= i <= self.entries@.len(),
                out@.len() == i,
                forall|k: int|
                    0 <= k < i ==> (#[trigger] out@[k]).id == self.entries@[k].id && id_set(
                        out@[k].rooms@,
                    ) == id_set(self.entries@[k].rooms@) && out@[k].alive
                        == self.entries@[k].alive,
            decreases self.entries@.len() - i,
        {
            let e = &self.entries[i];
            let mut rooms: Vec<RoomId> = Vec::new();
            let mut k: usize = 0;
            while k < e.rooms.len()
                invariant
                    0 <= k <= e.rooms@.len(),
                    rooms@.len() == k,
                    forall|m: int| 0 <= m < k ==> (#[trigger] rooms@[m])@ == e.rooms@[m]@,
                decreases e.rooms@.len() - k,
            {
                rooms.push(e.rooms[k].duplicate());
                k = k + 1;
            }
            proof {
                assert forall|x: Seq<u8>| #[trigger]
                    id_set(rooms@).contains(x) implies id_set(e.rooms@).contains(x) by {
                    lemma_id_set_contains(rooms@, x);
                    lemma_id_set_contains(e.rooms@, x);
                }
                assert forall|x: Seq<u8>| #[trigger]
                    id_set(e.rooms@).contains(x) implies id_set(rooms@).contains(x) by {
                    lemma_id_set_contains(e.rooms@, x);
                    let m = choose|m: int| 0 <= m < e.rooms@.len() && e.rooms@[m]@ == x;
                    assert(rooms@[m]@ == x);
                    lemma_id_set_contains(rooms@, x);
                }
                assert(id_set(rooms@) =~= id_set(e.rooms@));
            }
            out.push(PeerSnapshot { id: e.id, rooms, alive: e.alive });
            i = i + 1;
        }
        proof {
            assert forall|k: int| 0 <= k < out@.len() implies {
                &&& self@.contains_key((#[trigger] out@[k]).id@)
                &&& id_set(out@[k].rooms@) == self@[out@[k].id@].rooms
                &&& out@[k].alive == self@[out@[k].id@].alive
            } by {
                lemma_peer_index(self.entries@, k);
            }
            assert forall|p: u128| self@.contains_key(p) implies exists|k: int|
                0 <= k < out@.len() && (#[trigger] out@[k]).id@ == p by {
                let k = peer_index(self.entries@, p);
                assert(out@[k].id@ == p);
            }
        }
        out
    }
}

/// The index of a room id in a list, if the list holds it.
fn find_room(v: &Vec<RoomId>, room: &RoomId) -> (r: Option<usize>)
    ensures
        match r {
            Some(i) => i < v@.len() && v@[i as int]@ == room@,
            None => !id_set(v@).contains(room@),
        },
{
    let mut i: usize = 0;
    while i < v.len()
        invariant
            0 <= i <= v@.len(),
            forall|k: int| 0 <= k < i ==> v@[k]@ != room@,
        decreases v@.len() - i,
    {
        if v[i].matches(room) {
            return Some(i);
        }
        i = i + 1;
    }
    proof {
        lemma_id_set_contains(v@, room@);
    }
    None
}

} // verus!
