//! The room registry: one record per topic, keyed by room id.
//!
//! Rooms are created lazily on first join and deleted only by the sweep, and
//! only when empty at sweep time. Records live in a vector with pairwise
//! distinct ids; the registry's view is the map from room id to member set.

use vstd::prelude::*;

use crate::ids::{PeerId, RoomId};
use crate::model::{distinct_ids, id_set, lemma_id_set_contains, lemma_id_set_push,
    lemma_id_set_swap_remove, swap_removed, StateModel};
use crate::SignalError;

verus! {

/// One topic: its id and the ids of its current members.
pub struct Room {
    pub id: RoomId,
    pub peers: Vec<PeerId>,
}

impl View for Room {
    type V = Set<u128>;

    open spec fn view(&self) -> Set<u128> {
        id_set(self.peers@)
    }
}

pub open spec fn room_has(s: Seq<Room>, id: Seq<u8>) -> bool {
    exists|i: int| 0 <= i < s.len() && s[i].id@ == id
}

pub open spec fn room_index(s: Seq<Room>, id: Seq<u8>) -> int {
    choose|i: int| 0 <= i < s.len() && s[i].id@ == id
}

pub open spec fn rooms_distinct(s: Seq<Room>) -> bool {
    forall|i: int, j: int| 0 <= i < j < s.len() ==> s[i].id@ != s[j].id@
}

/// The map a sequence of room records stands for.
pub open spec fn rooms_map(s: Seq<Room>) -> Map<Seq<u8>, Set<u128>> {
    Map::new(|id: Seq<u8>| room_has(s, id), |id: Seq<u8>| s[room_index(s, id)]@)
}

/// With distinct ids, the record an id selects is the one at its index.
pub proof fn lemma_room_index(s: Seq<Room>, i: int)
    requires
        rooms_distinct(s),
        0 <= i < s.len(),
    ensures
        room_has(s, s[i].id@),
        room_index(s, s[i].id@) == i,
        rooms_map(s)[s[i].id@] == s[i]@,
{
    assert(room_has(s, s[i].id@));
    let j = room_index(s, s[i].id@);
    if j != i {
        if j < i {
            assert(s[j].id@ != s[i].id@);
        } else {
            assert(s[i].id@ != s[j].id@);
        }
    }
}

pub proof fn lemma_rooms_push(s: Seq<Room>, r: Room)
    requires
        rooms_distinct(s),
        !room_has(s, r.id@),
    ensures
        rooms_distinct(s.push(r)),
        rooms_map(s.push(r)) =~= rooms_map(s).insert(r.id@, r@),
{
    let sp = s.push(r);
    assert forall|i: int, j: int| 0 <= i < j < sp.len() implies sp[i].id@ != sp[j].id@ by {
        if j == s.len() {
            assert(sp[i] == s[i]);
            if sp[i].id@ == r.id@ {
                assert(room_has(s, r.id@));
            }
        }
    }
    let m1 = rooms_map(sp);
    let m2 = rooms_map(s).insert(r.id@, r@);
    assert forall|id: Seq<u8>| #[trigger] m1.contains_key(id) implies m2.contains_key(id) && m1[id]
        == m2[id] by {
        let i = room_index(sp, id);
        assert(0 <= i < sp.len() && sp[i].id@ == id);
        lemma_room_index(sp, i);
        if i == s.len() {
            assert(m1[id] == r@);
        } else {
            assert(sp[i] == s[i]);
            lemma_room_index(s, i);
        }
    }
    assert forall|id: Seq<u8>| #[trigger] m2.contains_key(id) implies m1.contains_key(id) by {
        if id == r.id@ {
            assert(sp[s.len() as int].id@ == id);
        } else {
            let i = room_index(s, id);
            assert(sp[i].id@ == id);
        }
    }
}

pub proof fn lemma_rooms_swap_remove(s: Seq<Room>, i: int)
    requires
        rooms_distinct(s),
        0 <= i < s.len(),
    ensures
        rooms_distinct(swap_removed(s, i)),
        rooms_map(swap_removed(s, i)) =~= rooms_map(s).remove(s[i].id@),
{
    let sr = swap_removed(s, i);
    assert forall|a: int, b: int| 0 <= a < b < sr.len() implies sr[a].id@ != sr[b].id@ by {
        let ra: int = if a == i { s.len() - 1 } else { a };
        let rb: int = if b == i { s.len() - 1 } else { b };
        assert(sr[a] == s[ra] && sr[b] == s[rb]);
    }
    let m1 = rooms_map(sr);
    let m2 = rooms_map(s).remove(s[i].id@);
    assert forall|id: Seq<u8>| #[trigger] m1.contains_key(id) implies m2.contains_key(id) && m1[id]
        == m2[id] by {
        let j = room_index(sr, id);
        assert(0 <= j < sr.len() && sr[j].id@ == id);
        lemma_room_index(sr, j);
        let rj: int = if j == i {
            s.len() - 1
        } else {
            j
        };
        assert(sr[j] == s[rj]);
        lemma_room_index(s, rj);
    }
    assert forall|id: Seq<u8>| #[trigger] m2.contains_key(id) implies m1.contains_key(id) by {
        let j = room_index(s, id);
        assert(0 <= j < s.len() && s[j].id@ == id);
        lemma_room_index(s, j);
        if j == s.len() - 1 {
            assert(j != i);
            assert(sr[i] == s[j]);
        } else {
            assert(sr[j] == s[j]);
        }
    }
}

/// The registry of rooms.
pub struct RoomRegistry {
    entries: Vec<Room>,
}

impl View for RoomRegistry {
    type V = Map<Seq<u8>, Set<u128>>;

    closed spec fn view(&self) -> Map<Seq<u8>, Set<u128>> {
        rooms_map(self.entries@)
    }
}

impl RoomRegistry {
    /// Record ids are pairwise distinct and each member list repeats no peer.
    pub closed spec fn wf(self) -> bool {
        &&& rooms_distinct(self.entries@)
        &&& forall|i: int|
            0 <= i < self.entries@.len() ==> distinct_ids(
                (#[trigger] self.entries@[i]).peers@,
            )
    }

    /// An empty registry.
    pub fn new() -> (r: RoomRegistry)
        ensures
            r.wf(),
            r@ == Map::<Seq<u8>, Set<u128>>::empty(),
    {
        let r = RoomRegistry { entries: Vec::new() };
        proof {
            assert(r@ =~= Map::<Seq<u8>, Set<u128>>::empty());
        }
        r
    }

    /// The index of the record with this id, if any.
    fn find(&self, id: &RoomId) -> (r: Option<usize>)
        requires
            self.wf(),
        ensures
            match r {
                Some(i) => i < self.entries@.len() && self.entries@[i as int].id@ == id@
                    && self@.contains_key(id@),
                None => !self@.contains_key(id@),
            },
    {
        let mut i: usize = 0;
        while i < self.entries.len()
            invariant
                0 <= i <= self.entries@.len(),
                forall|k: int| 0 <= k < i ==> self.entries@[k].id@ != id@,
            decreases self.entries@.len() - i,
        {
            if self.entries[i].id.matches(id) {
                return Some(i);
            }
            i = i + 1;
        }
        None
    }

    /// Whether a room with this id exists.
    pub fn contains(&self, id: &RoomId) -> (b: bool)
        requires
            self.wf(),
        ensures
            b == self@.contains_key(id@),
    {
        self.find(id).is_some()
    }

    /// Inserts the peer into the room's member set, creating the room with
    /// exactly this peer where it did not exist. Never fails.
    pub fn ensure_and_join(&mut self, id: &RoomId, p: PeerId)
        requires
            old(self).wf(),
        ensures
            final(self).wf(),
            final(self)@ == old(self)@.insert(
                id@,
                (if old(self)@.contains_key(id@) {
                    old(self)@[id@]
                } else {
                    Set::empty()
                }).insert(p@),
            ),
    {
        let ghost m0 = self@;
        match self.find(id) {
            None => {
                let mut members: Vec<PeerId> = Vec::new();
                members.push(p);
                let room = Room { id: id.duplicate(), peers: members };
                proof {
                    lemma_rooms_push(self.entries@, room);
                    lemma_id_set_push(Seq::<PeerId>::empty(), p);
                    assert(id_set(Seq::<PeerId>::empty()) =~= Set::<u128>::empty());
                    assert(room@ =~= Set::<u128>::empty().insert(p@));
                }
                self.entries.push(room);
            },
            Some(i) => {
                proof {
                    lemma_room_index(self.entries@, i as int);
                    lemma_rooms_swap_remove(self.entries@, i as int);
                }
                let mut room = self.entries.swap_remove(i);
                let ghost members0 = room.peers@;
                match find_member(&room.peers, p) {
                    None => {
                        room.peers.push(p);
                        proof {
                            lemma_id_set_push(members0, p);
                            assert forall|a: int, b: int|
                                0 <= a < b < room.peers@.len() implies room.peers@[a]@
                                != room.peers@[b]@ by {
                                if b == members0.len() {
                                    lemma_id_set_contains(members0, room.peers@[a]@);
                                }
                            }
                        }
                    },
                    Some(_) => {
                        proof {
                            lemma_id_set_contains(members0, p@);
                            assert(id_set(members0).insert(p@) =~= id_set(members0));
                        }
                    },
                }
                proof {
                    lemma_rooms_push(self.entries@, room);
                    assert(room@ =~= m0[id@].insert(p@));
                    assert(m0.remove(id@).insert(id@, room@) =~= m0.insert(id@, room@));
                }
                self.entries.push(room);
            },
        }
    }

    /// Removes the peer from the room's member set; a peer that was no member
    /// makes this a no-op on that set. The room persists even when it becomes
    /// empty: only the sweep deletes rooms.
    pub fn leave(&mut self, id: &RoomId, p: PeerId) -> (r: Result<(), SignalError>)
        requires
            old(self).wf(),
        ensures
            final(self).wf(),
            r is Ok <==> old(self)@.contains_key(id@),
            r is Err ==> *final(self) == *old(self) && r == Err::<(), SignalError>(
                SignalError::RoomNotFound,
            ),
            r is Ok ==> final(self)@ == old(self)@.insert(id@, old(self)@[id@].remove(p@)),
    {
        let ghost m0 = self@;
        match self.find(id) {
            None => Err(SignalError::RoomNotFound),
            Some(i) => {
                proof {
                    lemma_room_index(self.entries@, i as int);
                    lemma_rooms_swap_remove(self.entries@, i as int);
                }
                let mut room = self.entries.swap_remove(i);
                let ghost members0 = room.peers@;
                match find_member(&room.peers, p) {
                    Some(k) => {
                        proof {
                            lemma_id_set_swap_remove(members0, k as int);
                        }
                        let _ = room.peers.swap_remove(k);
                    },
                    None => {
                        proof {
                            lemma_id_set_contains(members0, p@);
                            assert(id_set(members0).remove(p@) =~= id_set(members0));
                        }
                    },
                }
                proof {
                    lemma_rooms_push(self.entries@, room);
                    assert(room@ =~= m0[id@].remove(p@));
                    assert(m0.remove(id@).insert(id@, room@) =~= m0.insert(id@, room@));
                }
                self.entries.push(room);
                Ok(())
            },
        }
    }

    /// The current member ids of a room, for fan-out.
    pub fn members(&self, id: &RoomId) -> (r: Result<Vec<PeerId>, SignalError>)
        requires
            self.wf(),
        ensures
            r is Ok <==> self@.contains_key(id@),
            r is Err ==> r == Err::<Vec<PeerId>, SignalError>(SignalError::RoomNotFound),
            r matches Ok(members) ==> distinct_ids(members@) && id_set(members@) == self@[id@],
    {
        match self.find(id) {
            None => Err(SignalError::RoomNotFound),
            Some(i) => {
                proof {
                    lemma_room_index(self.entries@, i as int);
                }
                let src = &self.entries[i].peers;
                let mut out: Vec<PeerId> = Vec::new();
                let mut k: usize = 0;
                while k < src.len()
                    invariant
                        0 <= k <= src@.len(),
                        out@ == src@.take(k as int),
                    decreases src@.len() - k,
                {
                    out.push(src[k]);
                    proof {
                        assert(out@ =~= src@.take(k + 1));
                    }
                    k = k + 1;
                }
                proof {
                    assert(src@.take(src@.len() as int) =~= src@);
                }
                Ok(out)
            },
        }
    }

    /// Removes the peer from each listed room's member set; a listed room
    /// that does not exist is skipped silently (it may already have been
    /// swept). Used for the cascade when a peer deregisters.
    pub fn remove_member_from(&mut self, rooms: &Vec<RoomId>, p: PeerId)
        requires
            old(self).wf(),
        ensures
            final(self).wf(),
            final(self)@.dom() == old(self)@.dom(),
            forall|r: Seq<u8>|
                old(self)@.contains_key(r) ==> final(self)@[r] == (if id_set(rooms@).contains(r) {
                    (#[trigger] old(self)@[r]).remove(p@)
                } else {
                    old(self)@[r]
                }),
    {
        let ghost m0 = self@;
        let mut k: usize = 0;
        while k < rooms.len()
            invariant
                self.wf(),
                0 <= k <= rooms@.len(),
                self@.dom() == m0.dom(),
                forall|r: Seq<u8>|
                    m0.contains_key(r) ==> self@[r] == (if id_set(
                        rooms@.take(k as int),
                    ).contains(r) {
                        (#[trigger] m0[r]).remove(p@)
                    } else {
                        m0[r]
                    }),
            decreases rooms@.len() - k,
        {
            let ghost m_pre = self@;
            let ghost rid = rooms@[k as int]@;
            let _ = self.leave(&rooms[k], p);
            proof {
                assert(rooms@.take(k + 1) =~= rooms@.take(k as int).push(rooms@[k as int]));
                lemma_id_set_push(rooms@.take(k as int), rooms@[k as int]);
                if m_pre.contains_key(rid) {
                    assert(self@ == m_pre.insert(rid, m_pre[rid].remove(p@)));
                    assert(self@.dom() =~= m_pre.dom());
                    assert forall|r: Seq<u8>| m0.contains_key(r) implies self@[r] == (if id_set(
                        rooms@.take(k + 1),
                    ).contains(r) {
                        (#[trigger] m0[r]).remove(p@)
                    } else {
                        m0[r]
                    }) by {
                        if r == rid {
                            if id_set(rooms@.take(k as int)).contains(r) {
                                assert(m_pre[r] == m0[r].remove(p@));
                                assert(m0[r].remove(p@).remove(p@) =~= m0[r].remove(p@));
                            }
                        }
                    }
                } else {
                    assert(!m0.contains_key(rid));
                }
            }
            k = k + 1;
        }
        proof {
            assert(rooms@.take(rooms@.len() as int) =~= rooms@);
        }
    }

    /// Deletes every room whose member set is empty right now; occupied rooms
    /// are untouched.
    pub fn sweep(&mut self)
        requires
            old(self).wf(),
        ensures
            final(self).wf(),
            final(self)@ == Map::new(
                |r: Seq<u8>| old(self)@.contains_key(r) && StateModel::occupied(old(self)@[r]),
                |r: Seq<u8>| old(self)@[r],
            ),
    {
        let ghost m0 = self@;
        let mut i: usize = 0;
        while i < self.entries.len()
            invariant
                self.wf(),
                0 <= i <= self.entries@.len(),
                forall|k: int|
                    0 <= k < i ==> StateModel::occupied((#[trigger] self.entries@[k])@),
                forall|r: Seq<u8>| #[trigger]
                    self@.contains_key(r) ==> m0.contains_key(r) && self@[r] == m0[r],
                forall|r: Seq<u8>|
                    m0.contains_key(r) && StateModel::occupied(#[trigger] m0[r])
                        ==> self@.contains_key(r),
            decreases self.entries@.len() - i,
        {
            proof {
                lemma_room_index(self.entries@, i as int);
            }
            if self.entries[i].peers.len() == 0 {
                let ghost m_pre = self@;
                let ghost prev = self.entries@;
                let ghost key = self.entries@[i as int].id@;
                proof {
                    let members = self.entries@[i as int].peers@;
                    assert forall|p: u128| !(#[trigger] id_set(members).contains(p)) by {
                        lemma_id_set_contains(members, p);
                    }
                    lemma_rooms_swap_remove(self.entries@, i as int);
                }
                let _ = self.entries.swap_remove(i);
                proof {
                    assert(self.entries@ == swap_removed(prev, i as int));
                    assert(self@ =~= m_pre.remove(key));
                    assert(!StateModel::occupied(m_pre[key]));
                    assert forall|r: Seq<u8>| #[trigger]
                        self@.contains_key(r) implies m0.contains_key(r) && self@[r] == m0[r] by {
                        assert(m_pre.remove(key).contains_key(r));
                        assert(m_pre.contains_key(r));
                    }
                    assert forall|r: Seq<u8>|
                        m0.contains_key(r) && StateModel::occupied(#[trigger] m0[r])
                            implies self@.contains_key(r) by {
                        assert(m_pre.contains_key(r));
                        assert(r != key);
                    }
                }
            } else {
                proof {
                    let ghost members = self.entries@[i as int].peers@;
                    lemma_id_set_contains(members, members[0]@);
                    assert(StateModel::occupied(id_set(members)));
                }
                i = i + 1;
            }
        }
        proof {
            assert forall|r: Seq<u8>| #[trigger]
                self@.contains_key(r) implies StateModel::occupied(self@[r]) by {
                let j = room_index(self.entries@, r);
                lemma_room_index(self.entries@, j);
            }
            assert(self@ =~= Map::new(
                |r: Seq<u8>| m0.contains_key(r) && StateModel::occupied(m0[r]),
                |r: Seq<u8>| m0[r],
            ));
        }
    }
}


/// A read-only view of one room for introspection: its id and member ids.
pub struct RoomSnapshot {
    pub id: RoomId,
    pub peers: Vec<PeerId>,
}

impl RoomRegistry {
    /// A snapshot of every room. Each entry reports one room of the registry
    /// faithfully, and every room appears exactly once.
    pub fn snapshot(&self) -> (r: Vec<RoomSnapshot>)
        requires
            self.wf(),
        ensures
            forall|k: int|
                0 <= k < r@.len() ==> {
                    &&& self@.contains_key((#[trigger] r@[k]).id@)
                    &&& id_set(r@[k].peers@) == self@[r@[k].id@]
                },
            forall|rm: Seq<u8>|
                self@.contains_key(rm) ==> exists|k: int|
                    0 <= k < r@.len() && (#[trigger] r@[k]).id@ == rm,
            forall|k1: int, k2: int| 0 <= k1 < k2 < r@.len() ==> r@[k1].id@ != r@[k2].id@,
    {
        let mut out: Vec<RoomSnapshot> = Vec::new();
        let mut i: usize = 0;
        while i < self.entries.len()
            invariant
                self.wf(),
                0 <= i <= self.entries@.len(),
                out@.len() == i,
                forall|k: int|
                    0 <= k < i ==> (#[trigger] out@[k]).id@ == self.entries@[k].id@ && out@[k].peers@
                        == self.entries@[k].peers@,
            decreases self.entries@.len() - i,
        {
            let e = &self.entries[i];
            let mut members: Vec<PeerId> = Vec::new();
            let mut k: usize = 0;
            while k < e.peers.len()
                invariant
                    0 <= k <= e.peers@.len(),
                    members@ == e.peers@.take(k as int),
                decreases e.peers@.len() - k,
            {
                members.push(e.peers[k]);
                proof {
                    assert(members@ =~= e.peers@.take(k + 1));
                }
                k = k + 1;
            }
            proof {
                assert(e.peers@.take(e.peers@.len() as int) =~= e.peers@);
            }
            out.push(RoomSnapshot { id: e.id.duplicate(), peers: members });
            i = i + 1;
        }
        proof {
            assert forall|k: int| 0 <= k < out@.len() implies {
                &&& self@.contains_key((#[trigger] out@[k]).id@)
                &&& id_set(out@[k].peers@) == self@[out@[k].id@]
            } by {
                lemma_room_index(self.entries@, k);
            }
            assert forall|rm: Seq<u8>| self@.contains_key(rm) implies exists|k: int|
                0 <= k < out@.len() && (#[trigger] out@[k]).id@ == rm by {
                let k = room_index(self.entries@, rm);
                assert(out@[k].id@ == rm);
            }
        }
        out
    }
}

/// The index of a peer id in a member list, if the list holds it.
fn find_member(v: &Vec<PeerId>, p: PeerId) -> (r: Option<usize>)
    ensures
        match r {
            Some(i) => i < v@.len() && v@[i as int]@ == p@,
            None => !id_set(v@).contains(p@),
        },
{
    let mut i: usize = 0;
    while i < v.len()
        invariant
            0 <= i <= v@.len(),
            forall|k: int| 0 <= k < i ==> v@[k]@ != p@,
        decreases v@.len() - i,
    {
        if v[i].value == p.value {
            return Some(i);
        }
        i = i + 1;
    }
    proof {
        lemma_id_set_contains(v@, p@);
    }
    None
}

} // verus!
