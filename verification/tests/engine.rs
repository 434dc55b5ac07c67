use signaling::engine::Signaling;
use signaling::ids::{PeerId, RoomId};
use signaling::supervisor::{handle_frame, heartbeat_tick, Frame, HeartbeatAction};
use signaling::SignalError;
use tokio::sync::mpsc::{unbounded_channel, UnboundedReceiver};

type Rx = UnboundedReceiver<Vec<u8>>;

fn connect(sig: &mut Signaling) -> (PeerId, Rx) {
    let (tx, rx) = unbounded_channel();
    let id = sig.add_peer(tx);
    (id, rx)
}

fn room(name: &str) -> RoomId {
    RoomId::new(name.as_bytes().to_vec())
}

fn text(frame: &str) -> Frame {
    Frame::Text(frame.as_bytes().to_vec())
}

fn members_of(sig: &Signaling, name: &str) -> Option<Vec<PeerId>> {
    sig.rooms()
        .into_iter()
        .find(|r| r.id.name == name.as_bytes().to_vec())
        .map(|r| r.peers)
}

#[test]
fn scenario_publish_reaches_other_members_only() {
    let mut sig = Signaling::new();
    let (x, mut rx_x) = connect(&mut sig);
    let (y, mut rx_y) = connect(&mut sig);
    assert_ne!(x, y);

    handle_frame(&mut sig, x, text(r#"{"type":"subscribe","topics":["lobby"]}"#)).unwrap();
    handle_frame(&mut sig, y, text(r#"{"type":"subscribe","topics":["lobby"]}"#)).unwrap();

    let frame = r#"{"type":"publish","topic":"lobby","data":"hi"}"#;
    handle_frame(&mut sig, x, text(frame)).unwrap();

    // The subscriber receives the exact original frame; the sender nothing.
    assert_eq!(rx_y.try_recv().unwrap(), frame.as_bytes().to_vec());
    assert!(rx_y.try_recv().is_err());
    assert!(rx_x.try_recv().is_err());
}

#[test]
fn scenario_disconnect_leaves_every_room() {
    let mut sig = Signaling::new();
    let (x, _rx) = connect(&mut sig);
    sig.join_room(x, &room("a")).unwrap();
    sig.join_room(x, &room("b")).unwrap();

    sig.remove_peer(x).unwrap();

    assert!(sig.peers().iter().all(|p| p.id != x));
    assert_eq!(members_of(&sig, "a").unwrap(), vec![]);
    assert_eq!(members_of(&sig, "b").unwrap(), vec![]);
}

#[test]
fn scenario_publish_to_unknown_room_fails_cleanly() {
    let mut sig = Signaling::new();
    let (x, _rx_x) = connect(&mut sig);
    let (y, mut rx_y) = connect(&mut sig);
    sig.join_room(y, &room("other")).unwrap();

    let r = handle_frame(&mut sig, x, text(r#"{"type":"publish","topic":"ghost"}"#));
    assert_eq!(r, Err(SignalError::RoomNotFound));

    // Other connections are unaffected.
    assert!(rx_y.try_recv().is_err());
    assert_eq!(members_of(&sig, "other").unwrap(), vec![y]);
}

#[test]
fn scenario_two_joins_make_exactly_two_members() {
    for order in [true, false] {
        let mut sig = Signaling::new();
        let (x, _rx_x) = connect(&mut sig);
        let (y, _rx_y) = connect(&mut sig);
        let (first, second) = if order { (x, y) } else { (y, x) };
        sig.join_room(first, &room("fresh")).unwrap();
        sig.join_room(second, &room("fresh")).unwrap();

        let mut members = members_of(&sig, "fresh").unwrap();
        members.sort_by_key(|p| p.value);
        let mut expected = vec![x, y];
        expected.sort_by_key(|p| p.value);
        assert_eq!(members, expected);
    }
}

#[test]
fn membership_is_symmetric_in_snapshots() {
    let mut sig = Signaling::new();
    let (x, _rx_x) = connect(&mut sig);
    let (y, _rx_y) = connect(&mut sig);
    sig.join_room(x, &room("a")).unwrap();
    sig.join_room(x, &room("b")).unwrap();
    sig.join_room(y, &room("b")).unwrap();
    sig.leave_room(x, &room("a")).unwrap();

    let peers = sig.peers();
    let rooms = sig.rooms();
    for p in &peers {
        for r in &p.rooms {
            let members = rooms.iter().find(|rm| rm.id.name == r.name).unwrap();
            assert!(members.peers.contains(&p.id));
        }
    }
    for rm in &rooms {
        for m in &rm.peers {
            let p = peers.iter().find(|p| p.id == *m).unwrap();
            assert!(p.rooms.iter().any(|r| r.name == rm.id.name));
        }
    }
}

#[test]
fn leaving_twice_is_a_no_op_then_room_not_found_after_the_sweep() {
    let mut sig = Signaling::new();
    let (x, _rx) = connect(&mut sig);
    sig.join_room(x, &room("a")).unwrap();

    assert_eq!(sig.leave_room(x, &room("a")), Ok(()));
    // The room persists (empty) until the sweep, so a second leave is a no-op.
    assert_eq!(sig.leave_room(x, &room("a")), Ok(()));
    assert_eq!(members_of(&sig, "a").unwrap(), vec![]);

    sig.garbage_collect();
    assert_eq!(sig.leave_room(x, &room("a")), Err(SignalError::RoomNotFound));
}

#[test]
fn empty_rooms_persist_until_the_sweep_and_occupied_rooms_survive_it() {
    let mut sig = Signaling::new();
    let (x, _rx) = connect(&mut sig);
    let (y, _ry) = connect(&mut sig);
    sig.join_room(x, &room("dying")).unwrap();
    sig.join_room(x, &room("reborn")).unwrap();
    sig.leave_room(x, &room("dying")).unwrap();
    sig.leave_room(x, &room("reborn")).unwrap();

    // Both rooms are empty but still present.
    assert_eq!(members_of(&sig, "dying").unwrap(), vec![]);
    assert_eq!(members_of(&sig, "reborn").unwrap(), vec![]);

    // One gains a member before the sweep and survives; the other is reaped.
    sig.join_room(y, &room("reborn")).unwrap();
    sig.garbage_collect();
    assert!(members_of(&sig, "dying").is_none());
    assert_eq!(members_of(&sig, "reborn").unwrap(), vec![y]);
}

#[test]
fn heartbeat_times_out_after_two_silent_ticks_and_removal_cascades() {
    let mut sig = Signaling::new();
    let (x, _rx) = connect(&mut sig);
    sig.join_room(x, &room("a")).unwrap();

    // First tick: the peer is alive, so the flag clears and a ping goes out.
    assert_eq!(heartbeat_tick(&mut sig, x), HeartbeatAction::SendPing);
    assert!(!sig.is_alive(x));

    // A pong would set the flag again...
    handle_frame(&mut sig, x, Frame::Pong(vec![])).unwrap();
    assert!(sig.is_alive(x));
    assert_eq!(heartbeat_tick(&mut sig, x), HeartbeatAction::SendPing);

    // ...but with no pong, the next tick times the peer out.
    assert_eq!(heartbeat_tick(&mut sig, x), HeartbeatAction::Timeout);
    sig.remove_peer(x).unwrap();
    assert!(sig.peers().is_empty());
    assert_eq!(members_of(&sig, "a").unwrap(), vec![]);
    assert_eq!(heartbeat_tick(&mut sig, x), HeartbeatAction::Timeout);
}

#[test]
fn error_variants_for_missing_peers_and_broken_channels() {
    let mut sig = Signaling::new();
    let ghost = PeerId { value: 7 };
    assert_eq!(sig.send(ghost, b"hi".to_vec()), Err(SignalError::PeerNotFound));
    assert_eq!(sig.set_peer_alive(ghost, true), Err(SignalError::PeerNotFound));
    assert_eq!(sig.remove_peer(ghost), Err(SignalError::PeerNotFound));
    assert_eq!(sig.join_room(ghost, &room("a")), Err(SignalError::PeerNotFound));
    assert!(!sig.is_alive(ghost));

    let (x, rx) = connect(&mut sig);
    drop(rx);
    assert_eq!(sig.send(x, b"hi".to_vec()), Err(SignalError::SendFailed));
}

#[test]
fn binary_frames_are_refused_without_tearing_state_down() {
    let mut sig = Signaling::new();
    let (x, _rx) = connect(&mut sig);
    sig.join_room(x, &room("a")).unwrap();
    assert_eq!(
        handle_frame(&mut sig, x, Frame::Binary(vec![1, 2, 3])),
        Err(SignalError::UnsupportedFrame)
    );
    assert_eq!(
        handle_frame(&mut sig, x, text("not json")),
        Err(SignalError::MalformedEvent)
    );
    assert_eq!(handle_frame(&mut sig, x, Frame::Ping(vec![])), Ok(()));
    assert_eq!(members_of(&sig, "a").unwrap(), vec![x]);
}

#[test]
fn ping_event_is_answered_with_a_pong_to_the_sender_only() {
    let mut sig = Signaling::new();
    let (x, mut rx_x) = connect(&mut sig);
    let (_y, mut rx_y) = connect(&mut sig);
    handle_frame(&mut sig, x, text(r#"{"type":"ping"}"#)).unwrap();
    assert_eq!(rx_x.try_recv().unwrap(), br#"{"type":"pong"}"#.to_vec());
    assert!(rx_y.try_recv().is_err());
}

#[test]
fn unsubscribe_processes_every_topic_even_for_unknown_rooms() {
    let mut sig = Signaling::new();
    let (x, _rx) = connect(&mut sig);
    sig.join_room(x, &room("a")).unwrap();
    sig.join_room(x, &room("b")).unwrap();
    // "ghost" does not exist; "b" must still be left.
    handle_frame(
        &mut sig,
        x,
        text(r#"{"type":"unsubscribe","topics":["a","ghost","b"]}"#),
    )
    .unwrap();
    assert_eq!(members_of(&sig, "a").unwrap(), vec![]);
    assert_eq!(members_of(&sig, "b").unwrap(), vec![]);
}

#[test]
fn leaving_a_room_one_never_joined_is_a_clean_no_op() {
    let mut sig = Signaling::new();
    let (x, _rx) = connect(&mut sig);
    let (y, _ry) = connect(&mut sig);
    sig.join_room(x, &room("a")).unwrap();
    // y is present and the room exists, but y is no member: still Ok.
    assert_eq!(sig.leave_room(y, &room("a")), Ok(()));
    assert_eq!(members_of(&sig, "a").unwrap(), vec![x]);
}

#[test]
fn canonical_form_matches_the_ulid_rendering() {
    for value in [0u128, 1, 31, 32, 0xDEADBEEF, u128::MAX, 1u128 << 100] {
        let id = PeerId { value };
        let expected = ulid::Ulid(value).to_string().to_lowercase().into_bytes();
        assert_eq!(id.canonical_bytes(), expected, "value {value}");
    }
    assert_eq!(
        PeerId { value: 0 }.canonical_bytes(),
        b"00000000000000000000000000".to_vec()
    );
}

#[test]
fn generated_peer_ids_are_distinct_and_registered_alive() {
    let mut sig = Signaling::new();
    let (x, _rx_x) = connect(&mut sig);
    let (y, _rx_y) = connect(&mut sig);
    assert_ne!(x, y);
    assert!(sig.is_alive(x));
    assert!(sig.is_alive(y));
    assert_eq!(sig.peers().len(), 2);
}
