//! The per-connection decision logic: inbound frame dispatch and the
//! heartbeat step.
//!
//! The surrounding tasks (the relay that drains the outbound queue, the timer
//! that ticks, the reader that hands frames in) live outside this crate; they
//! pass plain frames in and perform the actions these functions decide on. A
//! close frame ends the read loop before dispatch, so no variant stands for
//! it here.

use vstd::prelude::*;

use crate::engine::Signaling;
use crate::model::StateModel;
use crate::event::{decode_event, encode_event, Event, EventModel, sp_parse_event};
use crate::ids::PeerId;
use crate::SignalError;

verus! {

/// One inbound transport frame, as the dispatch loop sees it.
pub enum Frame {
    /// A UTF-8 text frame carrying one wire event.
    Text(Vec<u8>),
    /// A binary frame: a protocol violation, reported and not fatal.
    Binary(Vec<u8>),
    /// A transport-level ping; the transport answers it itself, so the
    /// dispatch ignores it.
    Ping(Vec<u8>),
    /// A transport-level pong: the peer answered the heartbeat.
    Pong(Vec<u8>),
}

/// What the heartbeat timer does on one tick.
#[derive(Clone, Copy, PartialEq, Eq, Structural, Debug)]
pub enum HeartbeatAction {
    /// The peer answered since the last tick: clear the flag and ping again.
    SendPing,
    /// No answer within the interval (or the peer is gone): tear down.
    Timeout,
}

/// One heartbeat tick for one peer. A peer whose flag is set is pinged again
/// with the flag cleared; a peer whose flag is clear — or that is already
/// gone — has timed out, and the caller tears the connection down.
pub fn heartbeat_tick(sig: &mut Signaling, peer: PeerId) -> (a: HeartbeatAction)
    requires
        old(sig).wf(),
    ensures
        final(sig).wf(),
        old(sig)@.peers.contains_key(peer@) && old(sig)@.peers[peer@].alive ==> a
            == HeartbeatAction::SendPing && final(sig)@ == old(sig)@.after_set_alive(peer@, false),
        !(old(sig)@.peers.contains_key(peer@) && old(sig)@.peers[peer@].alive) ==> a
            == HeartbeatAction::Timeout && final(sig)@ == old(sig)@,
{
    if sig.is_alive(peer) {
        let _ = sig.set_peer_alive(peer, false);
        HeartbeatAction::SendPing
    } else {
        HeartbeatAction::Timeout
    }
}

/// What dispatching one text frame does: the relation between the state
/// before, the state after, and the result, by the frame's parse.
pub open spec fn event_outcome(
    pre: StateModel,
    post: StateModel,
    p: u128,
    payload: Seq<u8>,
    r: Result<(), SignalError>,
) -> bool {
    match sp_parse_event(payload) {
        None => r == Err::<(), SignalError>(SignalError::MalformedEvent) && post == pre,
        Some(EventModel::Subscribe { topics }) => r is Ok && (if pre.peers.contains_key(p) {
            post == pre.after_join_all(p, topics)
        } else {
            post == pre
        }),
        Some(EventModel::Unsubscribe { topics }) => r is Ok && post == pre.after_leave_all(
            p,
            topics,
        ),
        Some(EventModel::Publish { topic }) => post == pre && (r is Ok
            <==> pre.rooms.contains_key(topic)) && (r is Err ==> r == Err::<(), SignalError>(
            SignalError::RoomNotFound,
        )),
        Some(EventModel::Ping) => post == pre && (r == Err::<(), SignalError>(
            SignalError::PeerNotFound,
        ) <==> !pre.peers.contains_key(p)) && (pre.peers.contains_key(p) ==> r == Ok::<
            (),
            SignalError,
        >(()) || r == Err::<(), SignalError>(SignalError::SendFailed)),
        Some(EventModel::Pong) => r is Ok && post == pre,
    }
}

/// Dispatches one decoded event. Subscribes and unsubscribes process every
/// listed topic in order, an individual failure skipping no later topic; a
/// publish fans the whole original frame out to the topic's other members; a
/// ping is answered with a pong to the sender alone; a stray pong is ignored.
#[verifier::rlimit(100)]
#[verifier::spinoff_prover]
pub fn handle_event(sig: &mut Signaling, peer: PeerId, payload: Vec<u8>) -> (r: Result<
    (),
    SignalError,
>)
    requires
        old(sig).wf(),
    ensures
        final(sig).wf(),
        event_outcome(old(sig)@, final(sig)@, peer@, payload@, r),
{
    let ev = match decode_event(&payload) {
        Err(e) => {
            return Err(e);
        },
        Ok(ev) => ev,
    };
    match ev {
        Event::Subscribe { topics } => {
            let ghost s0 = sig@;
            let ghost tv = topics@.map_values(|t: crate::ids::RoomId| t@);
            let ghost was_present = s0.peers.contains_key(peer@);
            proof {
                assert(tv.skip(0) =~= tv);
            }
            let mut k: usize = 0;
            while k < topics.len()
                invariant
                    sig.wf(),
                    0 <= k <= topics@.len(),
                    tv == topics@.map_values(|t: crate::ids::RoomId| t@),
                    tv.len() == topics@.len(),
                    was_present == s0.peers.contains_key(peer@),
                    was_present ==> sig@.peers.contains_key(peer@) && s0.after_join_all(peer@, tv)
                        == sig@.after_join_all(peer@, tv.skip(k as int)),
                    !was_present ==> sig@ == s0,
                decreases topics@.len() - k,
            {
                let ghost pre = sig@;
                let res = sig.join_room(peer, &topics[k]);
                proof {
                    assert(tv.skip(k as int).drop_first() =~= tv.skip(k + 1));
                    if was_present {
                        assert(res is Ok);
                        assert(sig@ == pre.after_join(peer@, tv.skip(k as int)[0]));
                        assert(sig@.peers.contains_key(peer@));
                        assert(pre.after_join_all(peer@, tv.skip(k as int))
                            == sig@.after_join_all(peer@, tv.skip(k + 1)));
                    }
                }
                k = k + 1;
            }
            proof {
                assert(tv.skip(tv.len() as int) =~= Seq::<Seq<u8>>::empty());
                if was_present {
                    assert(sig@.after_join_all(peer@, Seq::<Seq<u8>>::empty()) == sig@);
                }
            }
            Ok(())
        },
        Event::Unsubscribe { topics } => {
            let ghost s0 = sig@;
            let ghost tv = topics@.map_values(|t: crate::ids::RoomId| t@);
            proof {
                assert(tv.skip(0) =~= tv);
            }
            let mut k: usize = 0;
            while k < topics.len()
                invariant
                    sig.wf(),
                    0 <= k <= topics@.len(),
                    tv == topics@.map_values(|t: crate::ids::RoomId| t@),
                    tv.len() == topics@.len(),
                    s0.after_leave_all(peer@, tv) == sig@.after_leave_all(peer@, tv.skip(k as int)),
                decreases topics@.len() - k,
            {
                let ghost pre = sig@;
                let _ = sig.leave_room(peer, &topics[k]);
                proof {
                    assert(tv.skip(k as int).drop_first() =~= tv.skip(k + 1));
                    assert(sig@ == pre.after_leave(peer@, tv.skip(k as int)[0]));
                    assert(pre.after_leave_all(peer@, tv.skip(k as int)) == sig@.after_leave_all(
                        peer@,
                        tv.skip(k + 1),
                    ));
                }
                k = k + 1;
            }
            proof {
                assert(tv.skip(tv.len() as int) =~= Seq::<Seq<u8>>::empty());
                assert(sig@.after_leave_all(peer@, Seq::<Seq<u8>>::empty()) == sig@);
            }
            Ok(())
        },
        Event::Publish { topic } => {
            match sig.broadcast(peer, &topic, payload) {
                Ok(_) => Ok(()),
                Err(e) => Err(e),
            }
        },
        Event::Ping => {
            let pong = encode_event(&Event::Pong);
            sig.send(peer, pong)
        },
        Event::Pong => Ok(()),
    }
}

/// Dispatches one inbound frame. A text frame carries an event; a binary
/// frame is refused without ending the connection; a transport ping is left
/// to the transport; a transport pong marks the peer alive.
pub fn handle_frame(sig: &mut Signaling, peer: PeerId, frame: Frame) -> (r: Result<
    (),
    SignalError,
>)
    requires
        old(sig).wf(),
    ensures
        final(sig).wf(),
        frame matches Frame::Text(payload) ==> event_outcome(
            old(sig)@,
            final(sig)@,
            peer@,
            payload@,
            r,
        ),
        frame matches Frame::Binary(_) ==> r == Err::<(), SignalError>(
            SignalError::UnsupportedFrame,
        ) && final(sig)@ == old(sig)@,
        frame matches Frame::Ping(_) ==> r is Ok && final(sig)@ == old(sig)@,
        frame matches Frame::Pong(_) ==> (r is Ok <==> old(sig)@.peers.contains_key(peer@)) && (
        if old(sig)@.peers.contains_key(peer@) {
            final(sig)@ == old(sig)@.after_set_alive(peer@, true)
        } else {
            r == Err::<(), SignalError>(SignalError::PeerNotFound) && final(sig)@ == old(sig)@
        }),
{
    match frame {
        Frame::Text(payload) => handle_event(sig, peer, payload),
        Frame::Binary(_) => Err(SignalError::UnsupportedFrame),
        Frame::Ping(_) => Ok(()),
        Frame::Pong(_) => sig.set_peer_alive(peer, true),
    }
}

} // verus!
