//! The hub's laws: properties of the model transitions that every engine
//! operation's contract feeds, proved once and for all states.

use vstd::prelude::*;

use crate::model::StateModel;

verus! {

/// Membership is symmetric: a peer lists a room exactly when the room exists
/// and lists the peer. Every engine operation ensures well-formedness, so
/// this holds in every state a caller can observe between operations.
pub proof fn lemma_membership_symmetry(s: StateModel, p: u128, r: Seq<u8>)
    requires
        s.wf(),
    ensures
        (s.peers.contains_key(p) && s.peers[p].rooms.contains(r)) <==> (s.rooms.contains_key(r)
            && s.rooms[r].contains(p)),
{
}

/// Leaving a room is idempotent: a second leave right after the first
/// changes nothing. Membership is a set, so it cannot go negative; and since
/// a leave deletes no room, the second call finds the room in exactly the
/// state the first one left it.
pub proof fn lemma_leave_idempotent(s: StateModel, p: u128, r: Seq<u8>)
    requires
        s.wf(),
    ensures
        s.after_leave(p, r).after_leave(p, r) == s.after_leave(p, r),
        s.after_leave(p, r).rooms.dom() == s.rooms.dom(),
{
    let s1 = s.after_leave(p, r);
    assert(s1.rooms.dom() =~= s.rooms.dom());
    if s.peers.contains_key(p) {
        assert(s1.peers[p].rooms.remove(r) =~= s1.peers[p].rooms);
        assert(s1.after_leave(p, r).peers =~~= s1.peers);
        if s.rooms.contains_key(r) {
            assert(s1.rooms[r].remove(p) =~= s1.rooms[r]);
            assert(s1.after_leave(p, r).rooms =~~= s1.rooms);
        }
        assert(s1.after_leave(p, r) =~~= s1);
    }
}

/// Reaping is exact: a room is gone after the sweep precisely when it was
/// present and empty at sweep time; a room that gained a member before the
/// sweep survives with its members untouched. Until the sweep runs, no
/// operation deletes a room: leaving and deregistering keep the room set.
pub proof fn lemma_sweep_exact(s: StateModel, p: u128, r: Seq<u8>)
    requires
        s.wf(),
    ensures
        s.after_sweep().rooms.contains_key(r) <==> (s.rooms.contains_key(r)
            && StateModel::occupied(s.rooms[r])),
        s.after_sweep().rooms.contains_key(r) ==> s.after_sweep().rooms[r] == s.rooms[r],
        s.after_sweep().peers == s.peers,
        s.after_leave(p, r).rooms.dom() == s.rooms.dom(),
        s.after_remove_peer(p).rooms.dom() == s.rooms.dom(),
{
    assert(s.after_leave(p, r).rooms.dom() =~= s.rooms.dom());
    assert(s.after_remove_peer(p).rooms.dom() =~= s.rooms.dom());
}

/// Heartbeat timeout: a tick on an answering peer clears its flag; a second
/// tick with no pong in between finds the flag clear, which is the timeout,
/// and the deregistration that follows removes the peer from the registry
/// and from every room it had joined.
pub proof fn lemma_heartbeat_timeout(s: StateModel, p: u128)
    requires
        s.wf(),
        s.peers.contains_key(p),
        s.peers[p].alive,
    ensures
        !s.after_set_alive(p, false).peers[p].alive,
        s.after_set_alive(p, false).peers.contains_key(p),
        !s.after_set_alive(p, false).after_remove_peer(p).peers.contains_key(p),
        forall|r: Seq<u8>|
            s.after_set_alive(p, false).after_remove_peer(p).rooms.contains_key(r) ==> !(
            #[trigger] s.after_set_alive(p, false).after_remove_peer(p).rooms[r]).contains(p),
{
}

/// Two peers joining the same new room end with exactly those two members,
/// in either order: the race on lazy creation loses neither join.
pub proof fn lemma_join_two_members(s: StateModel, x: u128, y: u128, r: Seq<u8>)
    requires
        s.wf(),
        x != y,
        s.peers.contains_key(x),
        s.peers.contains_key(y),
        !s.rooms.contains_key(r),
    ensures
        s.after_join(x, r).after_join(y, r).rooms.contains_key(r),
        s.after_join(x, r).after_join(y, r).rooms[r] == Set::empty().insert(x).insert(y),
        s.after_join(x, r).after_join(y, r).rooms[r].len() == 2,
        s.after_join(x, r).after_join(y, r) == s.after_join(y, r).after_join(x, r),
{
    let sxy = s.after_join(x, r).after_join(y, r);
    let syx = s.after_join(y, r).after_join(x, r);
    assert(sxy.rooms[r] =~= Set::empty().insert(x).insert(y));
    assert(Set::<u128>::empty().insert(x).len() == 1);
    assert(Set::<u128>::empty().insert(x).insert(y).len() == 2);
    assert(sxy.peers =~~= syx.peers);
    assert(sxy.rooms =~~= syx.rooms) by {
        assert(sxy.rooms[r] =~= syx.rooms[r]);
    }
    assert(sxy =~~= syx);
}

} // verus!
