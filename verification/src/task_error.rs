//! What a failed task means for the peer that it asked.

use crate::selector::PeerSelector;
use crate::types::PeerId;
use vstd::prelude::*;

verus! {

/// The code of an error that a peer answered with.
#[derive(Clone, Copy, Debug, PartialEq, Eq, Structural)]
pub enum RpcErrorCode {
    Forbidden,
    MethodNotFound,
    ServerUnavailable,
    Unknown,
    InternalError,
    /// Any other code.
    Other,
}

impl RpcErrorCode {
    /// Whether a peer that answers with the code is of no use.
    pub open spec fn spec_is_fatal(self) -> bool {
        self != RpcErrorCode::Other
    }

    /// Tells whether a peer that answers with the code is of no use.
    pub fn is_fatal(&self) -> (r: bool)
        ensures
            r == self.spec_is_fatal(),
    {
        match self {
            RpcErrorCode::Forbidden
            | RpcErrorCode::MethodNotFound
            | RpcErrorCode::ServerUnavailable
            | RpcErrorCode::Unknown
            | RpcErrorCode::InternalError => true,
            RpcErrorCode::Other => false,
        }
    }
}

/// The peer that an error is about is to be forgotten: the error names a peer, and it is an answer
/// with a code that makes the peer useless.
pub open spec fn condemned(peer: Option<PeerId>, code: Option<RpcErrorCode>) -> Option<PeerId> {
    match (peer, code) {
        (Some(peer), Some(code)) if code.spec_is_fatal() => Some(peer),
        _ => None,
    }
}

/// Draws the consequence of a task's error, which may name a peer and may be an answer with a code:
/// forgets the peer where the code makes it useless, and then returns how many peers are left.
pub fn handle_task_error(
    selector: &mut PeerSelector,
    peer: Option<PeerId>,
    code: Option<RpcErrorCode>,
) -> (r: Option<usize>)
    ensures
        match condemned(peer, code) {
            Some(peer) => {
                &&& final(selector)@ == old(selector)@.without_peer(peer)
                &&& r matches Some(left) && left == final(selector)@.details.len()
            },
            None => r is None && final(selector)@ == old(selector)@,
        },
{
    match (peer, code) {
        (Some(peer), Some(code)) => {
            if code.is_fatal() {
                Some(selector.remove_peer(&peer))
            } else {
                None
            }
        },
        _ => None,
    }
}

} // verus!
