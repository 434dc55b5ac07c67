//! An in-memory signaling hub: peers subscribe to named rooms and publish
//! text frames that fan out to every other member of the room. The peer and
//! room registries, the wire-event codec, and the per-connection heartbeat
//! decisions are verified; transport plumbing lives outside this crate.

pub mod engine;
pub mod event;
pub mod ids;
pub mod laws;
pub mod model;
pub mod outbound;
pub mod peer;
pub mod room;
pub mod supervisor;

use vstd::prelude::*;

verus! {

/// The failure outcomes of registry and engine operations. Lookup misses are
/// expected under normal churn and are reported, never panicked on.
#[derive(Clone, Copy, PartialEq, Eq, Structural, Debug)]
pub enum SignalError {
    /// The peer id is not registered.
    PeerNotFound,
    /// The room id is not registered.
    RoomNotFound,
    /// A wire frame could not be decoded as an event.
    MalformedEvent,
    /// The peer's outbound channel is closed or broken.
    SendFailed,
    /// A frame kind the protocol does not accept (for example binary).
    UnsupportedFrame,
}

} // verus!
