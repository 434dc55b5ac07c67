//! The signaling engine: the facade over the peer and room registries.
//!
//! Every operation keeps the cross-registry invariant: a peer lists a room
//! exactly when the room lists the peer. The engine's view is a
//! [`StateModel`], and each mutating operation's contract names the model
//! transition it performs.

use vstd::prelude::*;

use crate::ids::{clone_bytes, PeerId, RoomId};
use crate::model::{distinct_ids, id_set, lemma_id_set_push, StateModel};
use crate::outbound::Outbound;
use crate::peer::PeerRegistry;
use crate::room::RoomRegistry;
use crate::SignalError;

verus! {

/// The in-memory hub: the peer registry and the room registry.
pub struct Signaling {
    peers: PeerRegistry,
    rooms: RoomRegistry,
}

impl View for Signaling {
    type V = StateModel;

    closed spec fn view(&self) -> StateModel {
        StateModel { peers: self.peers@, rooms: self.rooms@ }
    }
}

impl Signaling {
    /// Both registries are well-formed and the cross-registry invariant
    /// holds.
    pub closed spec fn wf(self) -> bool {
        &&& self.peers.wf()
        &&& self.rooms.wf()
        &&& self@.wf()
    }

    /// An empty hub.
    pub fn new() -> (r: Signaling)
        ensures
            r.wf(),
            r@ == (StateModel {
                peers: Map::<u128, crate::model::PeerModel>::empty(),
                rooms: Map::<Seq<u8>, Set<u128>>::empty(),
            }),
    {
        let r = Signaling { peers: PeerRegistry::new(), rooms: RoomRegistry::new() };
        proof {
            assert(r@.peers.dom() =~= Set::<u128>::empty());
            assert(r@.rooms.dom() =~= Set::<Seq<u8>>::empty());
        }
        r
    }

    /// Registers a new connection: generates a fresh peer id and records the
    /// peer with no rooms and its liveness flag set. In the (vanishingly
    /// unlikely) event that the generated id is already taken, the stale
    /// record is deregistered first, so the contract holds either way.
    pub fn add_peer(&mut self, conn: Outbound) -> (id: PeerId)
        requires
            old(self).wf(),
        ensures
            final(self).wf(),
            final(self)@ == old(self)@.after_add_peer(id@),
    {
        let ghost s0 = self@;
        let id = PeerId::generate();
        if self.peers.contains(id) {
            let rooms = match self.peers.remove(id) {
                Ok(rooms) => rooms,
                Err(_) => {
                    proof {
                        assert(false);
                    }
                    Vec::new()
                },
            };
            let ghost joined = id_set(rooms@);
            self.rooms.remove_member_from(&rooms, id);
            proof {
                assert forall|r: Seq<u8>| s0.rooms.contains_key(r) implies self.rooms@[r]
                    == s0.rooms[r].remove(id@) by {
                    if !joined.contains(r) {
                        assert(!s0.peers[id@].rooms.contains(r));
                        if s0.rooms[r].contains(id@) {
                            assert(s0.peers[id@].rooms.contains(r));
                        }
                        assert(s0.rooms[r].remove(id@) =~= s0.rooms[r]);
                    }
                }
            }
        } else {
            proof {
                assert forall|r: Seq<u8>| s0.rooms.contains_key(r) implies self.rooms@[r]
                    == s0.rooms[r].remove(id@) by {
                    if s0.rooms[r].contains(id@) {
                        assert(s0.peers.contains_key(id@));
                    }
                    assert(s0.rooms[r].remove(id@) =~= s0.rooms[r]);
                }
            }
        }
        self.peers.insert_new(id, conn);
        proof {
            assert(self@.peers =~~= s0.after_add_peer(id@).peers) by {
                if s0.peers.contains_key(id@) {
                    assert(s0.peers.remove(id@).insert(
                        id@,
                        crate::model::PeerModel { rooms: Set::empty(), alive: true },
                    ) =~~= s0.peers.insert(
                        id@,
                        crate::model::PeerModel { rooms: Set::empty(), alive: true },
                    ));
                }
            }
            assert(self@.rooms =~~= s0.after_add_peer(id@).rooms);
            assert(self@ =~~= s0.after_add_peer(id@));
            s0.lemma_wf_after_add_peer(id@);
        }
        id
    }

    /// Deregisters a peer and cascades: the peer leaves every room it had
    /// joined. Reports `PeerNotFound` where the id is already gone.
    pub fn remove_peer(&mut self, peer_id: PeerId) -> (r: Result<(), SignalError>)
        requires
            old(self).wf(),
        ensures
            final(self).wf(),
            r is Ok <==> old(self)@.peers.contains_key(peer_id@),
            r is Err ==> final(self)@ == old(self)@ && r == Err::<(), SignalError>(
                SignalError::PeerNotFound,
            ),
            r is Ok ==> final(self)@ == old(self)@.after_remove_peer(peer_id@),
    {
        let ghost s0 = self@;
        let rooms = match self.peers.remove(peer_id) {
            Err(e) => {
                return Err(e);
            },
            Ok(rooms) => rooms,
        };
        let ghost joined = id_set(rooms@);
        self.rooms.remove_member_from(&rooms, peer_id);
        proof {
            assert forall|r: Seq<u8>| s0.rooms.contains_key(r) implies self@.rooms[r]
                == s0.rooms[r].remove(peer_id@) by {
                if !joined.contains(r) {
                    assert(!s0.peers[peer_id@].rooms.contains(r));
                    if s0.rooms[r].contains(peer_id@) {
                        assert(s0.peers[peer_id@].rooms.contains(r));
                    }
                    assert(s0.rooms[r].remove(peer_id@) =~= s0.rooms[r]);
                }
            }
            assert(self@.rooms =~~= s0.after_remove_peer(peer_id@).rooms);
            assert(self@ =~~= s0.after_remove_peer(peer_id@));
            s0.lemma_wf_after_remove_peer(peer_id@);
        }
        Ok(())
    }

    /// Sets a present peer's liveness flag.
    pub fn set_peer_alive(&mut self, peer_id: PeerId, is_alive: bool) -> (r: Result<
        (),
        SignalError,
    >)
        requires
            old(self).wf(),
        ensures
            final(self).wf(),
            r is Ok <==> old(self)@.peers.contains_key(peer_id@),
            r is Err ==> final(self)@ == old(self)@ && r == Err::<(), SignalError>(
                SignalError::PeerNotFound,
            ),
            r is Ok ==> final(self)@ == old(self)@.after_set_alive(peer_id@, is_alive),
    {
        let ghost s0 = self@;
        match self.peers.set_alive(peer_id, is_alive) {
            Err(e) => Err(e),
            Ok(()) => {
                proof {
                    assert(self@ =~~= s0.after_set_alive(peer_id@, is_alive));
                    s0.lemma_wf_after_set_alive(peer_id@, is_alive);
                }
                Ok(())
            },
        }
    }

    /// Whether the peer is present with its liveness flag set; `false` for an
    /// unknown id, so the heartbeat may race a removal without erring.
    pub fn is_alive(&self, peer_id: PeerId) -> (b: bool)
        requires
            self.wf(),
        ensures
            b == (self@.peers.contains_key(peer_id@) && self@.peers[peer_id@].alive),
    {
        self.peers.is_alive(peer_id)
    }

    /// Subscribes a present peer to a room, creating the room on first join.
    pub fn join_room(&mut self, peer_id: PeerId, room_id: &RoomId) -> (r: Result<(), SignalError>)
        requires
            old(self).wf(),
        ensures
            final(self).wf(),
            r is Ok <==> old(self)@.peers.contains_key(peer_id@),
            r is Err ==> final(self)@ == old(self)@ && r == Err::<(), SignalError>(
                SignalError::PeerNotFound,
            ),
            r is Ok ==> final(self)@ == old(self)@.after_join(peer_id@, room_id@),
    {
        let ghost s0 = self@;
        match self.peers.add_room(peer_id, room_id) {
            Err(e) => {
                return Err(e);
            },
            Ok(()) => {},
        }
        self.rooms.ensure_and_join(room_id, peer_id);
        proof {
            assert(self@ =~~= s0.after_join(peer_id@, room_id@));
            s0.lemma_wf_after_join(peer_id@, room_id@);
        }
        Ok(())
    }

    /// Unsubscribes a peer from a room: both sides lose the link. A missing
    /// peer reports `PeerNotFound`; a missing room reports `RoomNotFound`,
    /// and by the invariant the peer never listed such a room, so the state
    /// is unchanged in both error cases.
    pub fn leave_room(&mut self, peer_id: PeerId, room_id: &RoomId) -> (r: Result<
        (),
        SignalError,
    >)
        requires
            old(self).wf(),
        ensures
            final(self).wf(),
            final(self)@ == old(self)@.after_leave(peer_id@, room_id@),
            r is Ok <==> old(self)@.peers.contains_key(peer_id@) && old(self)@.rooms.contains_key(
                room_id@,
            ),
            r == Err::<(), SignalError>(SignalError::PeerNotFound) <==> !old(
                self,
            )@.peers.contains_key(peer_id@),
            r == Err::<(), SignalError>(SignalError::RoomNotFound) <==> old(
                self,
            )@.peers.contains_key(peer_id@) && !old(self)@.rooms.contains_key(room_id@),
            r is Err ==> final(self)@ == old(self)@,
    {
        let ghost s0 = self@;
        match self.peers.remove_room(peer_id, room_id) {
            Err(e) => {
                return Err(e);
            },
            Ok(()) => {},
        }
        match self.rooms.leave(room_id, peer_id) {
            Err(e) => {
                proof {
                    s0.lemma_leave_absent_room(peer_id@, room_id@);
                    assert(s0.peers[peer_id@].rooms.remove(room_id@) =~= s0.peers[peer_id@].rooms);
                    assert(self@.peers =~~= s0.peers);
                    assert(self@ =~~= s0);
                    s0.lemma_wf_after_leave(peer_id@, room_id@);
                }
                Err(e)
            },
            Ok(()) => {
                proof {
                    assert(self@ =~~= s0.after_leave(peer_id@, room_id@));
                    s0.lemma_wf_after_leave(peer_id@, room_id@);
                }
                Ok(())
            },
        }
    }

    /// Fans a payload out to every current member of the room except the
    /// sender, one push each; reports `RoomNotFound` for an unknown room. A
    /// recipient whose outbound handle fails is skipped, never aborting the
    /// fan-out. Returns the recipients attempted, each exactly once.
    pub fn broadcast(&self, peer_id: PeerId, room_id: &RoomId, payload: Vec<u8>) -> (r: Result<
        Vec<PeerId>,
        SignalError,
    >)
        requires
            self.wf(),
        ensures
            r is Ok <==> self@.rooms.contains_key(room_id@),
            r is Err ==> r == Err::<Vec<PeerId>, SignalError>(SignalError::RoomNotFound),
            r matches Ok(recipients) ==> distinct_ids(recipients@) && id_set(recipients@)
                == self@.rooms[room_id@].remove(peer_id@),
    {
        let members = match self.rooms.members(room_id) {
            Err(e) => {
                return Err(e);
            },
            Ok(members) => members,
        };
        let mut recipients: Vec<PeerId> = Vec::new();
        let mut k: usize = 0;
        while k < members.len()
            invariant
                self.wf(),
                0 <= k <= members@.len(),
                distinct_ids(members@),
                distinct_ids(recipients@),
                id_set(recipients@) == id_set(members@.take(k as int)).remove(peer_id@),
            decreases members@.len() - k,
        {
            let ghost rec_pre = recipients@;
            proof {
                assert(members@.take(k + 1) =~= members@.take(k as int).push(members@[k as int]));
                lemma_id_set_push(members@.take(k as int), members@[k as int]);
            }
            let m = members[k];
            if m.value != peer_id.value {
                let _ = self.peers.send(m, clone_bytes(&payload));
                recipients.push(m);
                proof {
                    lemma_id_set_push(rec_pre, m);
                    assert forall|a: int, b: int|
                        0 <= a < b < recipients@.len() implies recipients@[a]@
                        != recipients@[b]@ by {
                        if b == rec_pre.len() {
                            crate::model::lemma_id_set_contains(rec_pre, recipients@[a]@);
                            crate::model::lemma_id_set_contains(
                                members@.take(k as int),
                                recipients@[a]@,
                            );
                        }
                    }
                    assert(id_set(recipients@) =~= id_set(members@.take(k + 1)).remove(peer_id@));
                }
            } else {
                proof {
                    assert(id_set(recipients@) =~= id_set(members@.take(k + 1)).remove(peer_id@));
                }
            }
            k = k + 1;
        }
        proof {
            assert(members@.take(members@.len() as int) =~= members@);
        }
        Ok(recipients)
    }

    /// Pushes a payload to one present peer. `SendFailed` reports a closed
    /// outbound handle; delivery depends on the receiving half, so success is
    /// not promised for a present peer.
    pub fn send(&self, peer_id: PeerId, payload: Vec<u8>) -> (r: Result<(), SignalError>)
        requires
            self.wf(),
        ensures
            r == Err::<(), SignalError>(SignalError::PeerNotFound) <==> !self@.peers.contains_key(
                peer_id@,
            ),
            self@.peers.contains_key(peer_id@) ==> r == Ok::<(), SignalError>(()) || r == Err::<
                (),
                SignalError,
            >(SignalError::SendFailed),
    {
        self.peers.send(peer_id, payload)
    }

    /// The sweep: deletes every room that is empty right now. Run
    /// periodically by the reaper, never by a request path.
    pub fn garbage_collect(&mut self)
        requires
            old(self).wf(),
        ensures
            final(self).wf(),
            final(self)@ == old(self)@.after_sweep(),
    {
        let ghost s0 = self@;
        self.rooms.sweep();
        proof {
            assert(self@ =~~= s0.after_sweep());
            s0.lemma_wf_after_sweep();
        }
    }

    /// A snapshot of every registered peer, for introspection only.
    pub fn peers(&self) -> (r: Vec<crate::peer::PeerSnapshot>)
        requires
            self.wf(),
        ensures
            forall|k: int|
                0 <= k < r@.len() ==> {
                    &&& self@.peers.contains_key((#[trigger] r@[k]).id@)
                    &&& id_set(r@[k].rooms@) == self@.peers[r@[k].id@].rooms
                    &&& r@[k].alive == self@.peers[r@[k].id@].alive
                },
            forall|p: u128|
                self@.peers.contains_key(p) ==> exists|k: int|
                    0 <= k < r@.len() && (#[trigger] r@[k]).id@ == p,
            forall|k1: int, k2: int| 0 <= k1 < k2 < r@.len() ==> r@[k1].id@ != r@[k2].id@,
    {
        self.peers.snapshot()
    }

    /// A snapshot of every room, for introspection only.
    pub fn rooms(&self) -> (r: Vec<crate::room::RoomSnapshot>)
        requires
            self.wf(),
        ensures
            forall|k: int|
                0 <= k < r@.len() ==> {
                    &&& self@.rooms.contains_key((#[trigger] r@[k]).id@)
                    &&& id_set(r@[k].peers@) == self@.rooms[r@[k].id@]
                },
            forall|rm: Seq<u8>|
                self@.rooms.contains_key(rm) ==> exists|k: int|
                    0 <= k < r@.len() && (#[trigger] r@[k]).id@ == rm,
            forall|k1: int, k2: int| 0 <= k1 < k2 < r@.len() ==> r@[k1].id@ != r@[k2].id@,
    {
        self.rooms.snapshot()
    }
}

/// The empty hub, as the transport layer constructs it at startup.
impl Default for Signaling {
    fn default() -> (r: Signaling)
        ensures
            r.wf(),
            r@ == (StateModel {
                peers: Map::<u128, crate::model::PeerModel>::empty(),
                rooms: Map::<Seq<u8>, Set<u128>>::empty(),
            }),
    {
        Signaling::new()
    }
}

} // verus!
