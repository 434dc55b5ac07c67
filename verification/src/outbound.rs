//! The outbound handle: the channel through which text frames are pushed to
//! one peer's transport. The hub owns the sending half; the connection's
//! relay task owns the receiving half and writes each frame to the wire.

use vstd::prelude::*;

verus! {

#[verifier::external_type_specification]
#[verifier::external_body]
#[verifier::reject_recursive_types(T)]
pub struct ExUnboundedSender<T>(tokio::sync::mpsc::UnboundedSender<T>);

/// The handle through which UTF-8 text frames reach one peer's transport.
pub type Outbound = tokio::sync::mpsc::UnboundedSender<Vec<u8>>;

/// Relies on tokio::sync::mpsc::UnboundedSender::send: queues the frame for
/// the receiving half without blocking, and fails exactly when the receiver
/// has been dropped. Whether it succeeds depends on the receiver's state, so
/// nothing is promised of the outcome.
#[verifier::external_body]
pub(crate) fn push_frame(out: &Outbound, frame: Vec<u8>) -> bool {
    out.send(frame).is_ok()
}

} // verus!
