//! A peer as the selector keeps it.

use crate::order::Ranked;
use crate::score::ScoreCounter;
use crate::types::{BlockHeader, PeerId, PeerInfo};
use vstd::prelude::*;
use vstd::std_specs::convert::FromSpecImpl;

verus! {

/// A peer, what it offers, and its score.
#[derive(Clone, Copy, Debug, PartialEq, Eq, Structural)]
pub struct PeerDetail {
    pub peer_info: PeerInfo,
    pub score_counter: ScoreCounter,
}

impl PeerDetail {
    /// The peer's identity.
    pub fn peer_id(&self) -> (r: PeerId)
        ensures
            r == self.peer_info.peer_id,
    {
        self.peer_info.peer_id()
    }

    /// The header of the newest block of the peer's chain.
    pub fn latest_header(&self) -> (r: &BlockHeader)
        ensures
            *r == self.peer_info.status().head,
            *r == self.peer_info.chain_info.status.head,
    {
        self.peer_info.latest_header()
    }

    /// The peer and what it offers.
    pub fn peer_info(&self) -> (r: &PeerInfo)
        ensures
            *r == self.peer_info,
    {
        &self.peer_info
    }

    /// The peer's score.
    pub fn score(&self) -> (r: u64)
        ensures
            r == self.score_counter.score,
    {
        self.score_counter.score()
    }

    /// The peer's average score.
    pub fn avg_score(&self) -> (r: u64)
        ensures
            r == self.score_counter.spec_avg(),
    {
        self.score_counter.avg()
    }
}

impl From<PeerInfo> for PeerDetail {
    /// A peer that has not been scored yet.
    fn from(peer: PeerInfo) -> (r: PeerDetail) {
        PeerDetail { peer_info: peer, score_counter: ScoreCounter::default() }
    }
}

impl FromSpecImpl<PeerInfo> for PeerDetail {
    open spec fn obeys_from_spec() -> bool {
        true
    }

    open spec fn from_spec(peer: PeerInfo) -> PeerDetail {
        PeerDetail { peer_info: peer, score_counter: ScoreCounter { score: 1, times: 1 } }
    }
}

impl From<(PeerInfo, u64)> for PeerDetail {
    /// A peer with the given score.
    fn from(peer: (PeerInfo, u64)) -> (r: PeerDetail) {
        PeerDetail { peer_info: peer.0, score_counter: ScoreCounter::new(peer.1) }
    }
}

impl FromSpecImpl<(PeerInfo, u64)> for PeerDetail {
    open spec fn obeys_from_spec() -> bool {
        true
    }

    open spec fn from_spec(peer: (PeerInfo, u64)) -> PeerDetail {
        PeerDetail {
            peer_info: peer.0,
            score_counter: ScoreCounter { score: peer.1, times: 1 },
        }
    }
}

impl Ranked for PeerInfo {
    open spec fn rank(&self) -> nat {
        self.difficulty()
    }

    fn key(&self) -> (u128, u128) {
        let difficulty = self.total_difficulty();
        (difficulty.hi, difficulty.lo)
    }
}

impl Ranked for PeerDetail {
    open spec fn rank(&self) -> nat {
        self.peer_info.difficulty()
    }

    fn key(&self) -> (u128, u128) {
        let difficulty = self.peer_info.total_difficulty();
        (difficulty.hi, difficulty.lo)
    }
}

} // verus!
