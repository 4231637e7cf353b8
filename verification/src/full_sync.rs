//! The course of a synchronization with a target, from round to round.
//!
//! A [`FullSyncTask`] decides what to do; what only the network, the store or another task can do is
//! a [`SyncAction`], whose outcome comes back as a [`SyncEvent`].

use crate::selector::{PeerSelector, PeerSelectorView};
use crate::strategy::PeerStrategy;
use crate::types::{
    AccumulatorInfo, AncestorEvent, BlockHeader, BlockIdAndNumber, BlockInfo, BlockNumber,
    ChainStatus, HashValue, PeerInfo, SyncTarget, SyncTargetView, U256,
};
use vstd::prelude::*;

verus! {

/// How many block hashes the search for the ancestor asks for at a time.
pub const ANCESTOR_BATCH_SIZE: u64 = 10;

/// How many requests the search for the ancestor has under way at a time.
pub const ANCESTOR_BUFFER_SIZE: usize = 2;

/// How many milliseconds pass between a failure and the next try.
pub const DELAY_MILLISECONDS_ON_ERROR: u64 = 100;

/// Why a synchronization cannot start or go on.
#[derive(Clone, Copy, Debug, PartialEq, Eq, Structural)]
pub enum SyncError {
    /// The store lacks the header of this block.
    HeaderNotFound(HashValue),
    /// The store lacks what is kept about this block.
    InfoNotFound(HashValue),
}

impl SyncError {
    /// The error's text, given the text of the block's hash.
    pub open spec fn text(self, id: Seq<char>) -> Seq<char> {
        match self {
            SyncError::HeaderNotFound(_) => "Can not find block header by id: "@ + id,
            SyncError::InfoNotFound(_) => "Can not find block info by id: "@ + id,
        }
    }

    /// The hash of the block that the error is about.
    pub fn block_id(&self) -> (r: HashValue)
        ensures
            r == match *self {
                SyncError::HeaderNotFound(id) => id,
                SyncError::InfoNotFound(id) => id,
            },
    {
        match self {
            SyncError::HeaderNotFound(id) => *id,
            SyncError::InfoNotFound(id) => *id,
        }
    }

    /// Writes the error's text. `id` is the text of the block's hash.
    pub fn message(&self, id: &str) -> (r: String)
        ensures
            r@ == self.text(id@),
    {
        match self {
            SyncError::HeaderNotFound(_) => {
                "Can not find block header by id: ".to_string().concat(id)
            },
            SyncError::InfoNotFound(_) => "Can not find block info by id: ".to_string().concat(id),
        }
    }
}

/// The header that the store holds of a block, without which no synchronization starts.
pub fn require_header(id: HashValue, header: Option<BlockHeader>) -> (r: Result<
    BlockHeader,
    SyncError,
>)
    ensures
        r == match header {
            Some(header) => Ok::<BlockHeader, SyncError>(header),
            None => Err(SyncError::HeaderNotFound(id)),
        },
{
    match header {
        Some(header) => Ok(header),
        None => Err(SyncError::HeaderNotFound(id)),
    }
}

/// What the store keeps about a block, without which no synchronization goes on.
pub fn require_info(id: HashValue, info: Option<BlockInfo>) -> (r: Result<BlockInfo, SyncError>)
    ensures
        r == match info {
            Some(info) => Ok::<BlockInfo, SyncError>(info),
            None => Err(SyncError::InfoNotFound(id)),
        },
{
    match info {
        Some(info) => Ok(info),
        None => Err(SyncError::InfoNotFound(id)),
    }
}

/// The search for the newest block that the node's chain shares with the target.
#[derive(Clone, Copy, Debug, PartialEq, Eq, Structural)]
pub struct AncestorSearch {
    /// The height of the node's newest block.
    pub start_number: BlockNumber,
    /// The height of the target.
    pub target_number: BlockNumber,
    pub batch_size: u64,
    pub buffer_size: usize,
    pub max_retry_times: u64,
    pub delay_milliseconds_on_error: u64,
    /// The accumulator of the blocks of the node's chain.
    pub block_accumulator: AccumulatorInfo,
}

/// A round of a synchronization: blocks are fetched and connected, from one that the node has to a
/// target.
#[derive(Debug)]
pub struct SyncRound {
    /// The block from which the round goes on.
    pub ancestor: BlockIdAndNumber,
    pub target: SyncTarget,
    /// What the store keeps about the block that was the newest at the start.
    pub current_block_info: BlockInfo,
    pub max_retry_times: u64,
    pub delay_milliseconds_on_error: u64,
    /// Whether proofs of work are taken without a check.
    pub skip_pow_verify: bool,
}

/// What a [`SyncRound`] says.
pub struct SyncRoundView {
    pub ancestor: BlockIdAndNumber,
    pub target: SyncTargetView,
    pub current_block_info: BlockInfo,
    pub max_retry_times: u64,
    pub delay_milliseconds_on_error: u64,
    pub skip_pow_verify: bool,
}

impl View for SyncRound {
    type V = SyncRoundView;

    open spec fn view(&self) -> SyncRoundView {
        SyncRoundView {
            ancestor: self.ancestor,
            target: self.target@,
            current_block_info: self.current_block_info,
            max_retry_times: self.max_retry_times,
            delay_milliseconds_on_error: self.delay_milliseconds_on_error,
            skip_pow_verify: self.skip_pow_verify,
        }
    }
}

/// How far a synchronization has come.
#[derive(Debug)]
pub enum SyncPhase {
    /// The ancestor is being looked for.
    FindingAncestor,
    /// What the store keeps about the ancestor is being loaded.
    LoadingAncestor(BlockIdAndNumber),
    /// The ancestor is being announced.
    Announcing(BlockIdAndNumber, BlockInfo),
    /// The peers are being fetched for a round from this block on.
    FetchingPeers(BlockIdAndNumber, BlockInfo),
    /// The round's target is being looked for.
    FindingTarget(BlockIdAndNumber, BlockInfo),
    /// The blocks from this one to the round's target are being fetched and connected.
    Syncing(BlockIdAndNumber, SyncTarget),
    /// The target is reached, and this is the newest block.
    Finished(ChainStatus),
    /// The synchronization cannot go on.
    Failed(SyncError),
}

/// What a [`SyncPhase`] says.
pub enum SyncPhaseView {
    FindingAncestor,
    LoadingAncestor(BlockIdAndNumber),
    Announcing(BlockIdAndNumber, BlockInfo),
    FetchingPeers(BlockIdAndNumber, BlockInfo),
    FindingTarget(BlockIdAndNumber, BlockInfo),
    Syncing(BlockIdAndNumber, SyncTargetView),
    Finished(ChainStatus),
    Failed(SyncError),
}

impl View for SyncPhase {
    type V = SyncPhaseView;

    open spec fn view(&self) -> SyncPhaseView {
        match *self {
            SyncPhase::FindingAncestor => SyncPhaseView::FindingAncestor,
            SyncPhase::LoadingAncestor(ancestor) => SyncPhaseView::LoadingAncestor(ancestor),
            SyncPhase::Announcing(ancestor, info) => SyncPhaseView::Announcing(ancestor, info),
            SyncPhase::FetchingPeers(from, info) => SyncPhaseView::FetchingPeers(from, info),
            SyncPhase::FindingTarget(from, info) => SyncPhaseView::FindingTarget(from, info),
            SyncPhase::Syncing(from, target) => SyncPhaseView::Syncing(from, target@),
            SyncPhase::Finished(status) => SyncPhaseView::Finished(status),
            SyncPhase::Failed(error) => SyncPhaseView::Failed(error),
        }
    }
}

/// What a synchronization needs done.
#[derive(Debug)]
pub enum SyncAction {
    FindAncestor(AncestorSearch),
    LoadInfo(HashValue),
    Announce(AncestorEvent),
    FetchPeers,
    /// Find a target with a total difficulty above the first, unless nothing is better than the
    /// second.
    FindTarget(U256, SyncTarget),
    /// Fetch and connect the blocks of this round.
    Sync(SyncRound),
    Finish(ChainStatus),
    Fail(SyncError),
}

/// What a [`SyncAction`] says.
pub enum SyncActionView {
    FindAncestor(AncestorSearch),
    LoadInfo(HashValue),
    Announce(AncestorEvent),
    FetchPeers,
    FindTarget(nat, SyncTargetView),
    Sync(SyncRoundView),
    Finish(ChainStatus),
    Fail(SyncError),
}

impl View for SyncAction {
    type V = SyncActionView;

    open spec fn view(&self) -> SyncActionView {
        match *self {
            SyncAction::FindAncestor(search) => SyncActionView::FindAncestor(search),
            SyncAction::LoadInfo(id) => SyncActionView::LoadInfo(id),
            SyncAction::Announce(event) => SyncActionView::Announce(event),
            SyncAction::FetchPeers => SyncActionView::FetchPeers,
            SyncAction::FindTarget(difficulty, target) => SyncActionView::FindTarget(
                difficulty@,
                target@,
            ),
            SyncAction::Sync(round) => SyncActionView::Sync(round@),
            SyncAction::Finish(status) => SyncActionView::Finish(status),
            SyncAction::Fail(error) => SyncActionView::Fail(error),
        }
    }
}

/// What came of an action.
#[derive(Debug)]
pub enum SyncEvent {
    AncestorFound(BlockIdAndNumber),
    InfoLoaded(Option<BlockInfo>),
    /// The ancestor was announced, whether or not anyone took notice.
    Announced,
    PeersFetched(Vec<PeerInfo>),
    TargetFound(SyncTarget),
    /// A round is over, and this is the newest block now.
    Synced(ChainStatus),
}

/// What a [`SyncEvent`] says.
pub enum SyncEventView {
    AncestorFound(BlockIdAndNumber),
    InfoLoaded(Option<BlockInfo>),
    Announced,
    PeersFetched(Seq<PeerInfo>),
    TargetFound(SyncTargetView),
    Synced(ChainStatus),
}

impl View for SyncEvent {
    type V = SyncEventView;

    open spec fn view(&self) -> SyncEventView {
        match *self {
            SyncEvent::AncestorFound(ancestor) => SyncEventView::AncestorFound(ancestor),
            SyncEvent::InfoLoaded(info) => SyncEventView::InfoLoaded(info),
            SyncEvent::Announced => SyncEventView::Announced,
            SyncEvent::PeersFetched(peers) => SyncEventView::PeersFetched(peers@),
            SyncEvent::TargetFound(target) => SyncEventView::TargetFound(target@),
            SyncEvent::Synced(status) => SyncEventView::Synced(status),
        }
    }
}

/// A synchronization under way.
#[derive(Debug)]
pub struct FullSyncTask {
    current_number: BlockNumber,
    current_info: BlockInfo,
    target: SyncTarget,
    skip_pow_verify: bool,
    max_retry_times: u64,
    phase: SyncPhase,
}

/// What a [`FullSyncTask`] says.
pub struct FullSyncView {
    /// The height of the block that was the newest at the start.
    pub current_number: BlockNumber,
    /// What the store keeps about that block.
    pub current_info: BlockInfo,
    pub target: SyncTargetView,
    /// Whether proofs of work are taken without a check.
    pub skip_pow_verify: bool,
    pub max_retry_times: u64,
    pub phase: SyncPhaseView,
}

impl View for FullSyncTask {
    type V = FullSyncView;

    closed spec fn view(&self) -> FullSyncView {
        FullSyncView {
            current_number: self.current_number,
            current_info: self.current_info,
            target: self.target@,
            skip_pow_verify: self.skip_pow_verify,
            max_retry_times: self.max_retry_times,
            phase: self.phase@,
        }
    }
}

impl FullSyncView {
    /// What the synchronization needs done.
    pub open spec fn action(self) -> SyncActionView {
        match self.phase {
            SyncPhaseView::FindingAncestor => SyncActionView::FindAncestor(
                AncestorSearch {
                    start_number: self.current_number,
                    target_number: self.target.target_id.number,
                    batch_size: ANCESTOR_BATCH_SIZE,
                    buffer_size: ANCESTOR_BUFFER_SIZE,
                    max_retry_times: self.max_retry_times,
                    delay_milliseconds_on_error: DELAY_MILLISECONDS_ON_ERROR,
                    block_accumulator: self.current_info.block_accumulator_info,
                },
            ),
            SyncPhaseView::LoadingAncestor(ancestor) => SyncActionView::LoadInfo(ancestor.id),
            SyncPhaseView::Announcing(ancestor, _) => SyncActionView::Announce(
                AncestorEvent { ancestor },
            ),
            SyncPhaseView::FetchingPeers(_, _) => SyncActionView::FetchPeers,
            SyncPhaseView::FindingTarget(_, info) => SyncActionView::FindTarget(
                info.total_difficulty@,
                self.target,
            ),
            SyncPhaseView::Syncing(from, target) => SyncActionView::Sync(
                SyncRoundView {
                    ancestor: from,
                    target,
                    current_block_info: self.current_info,
                    max_retry_times: self.max_retry_times,
                    delay_milliseconds_on_error: DELAY_MILLISECONDS_ON_ERROR,
                    skip_pow_verify: self.skip_pow_verify,
                },
            ),
            SyncPhaseView::Finished(status) => SyncActionView::Finish(status),
            SyncPhaseView::Failed(error) => SyncActionView::Fail(error),
        }
    }

    /// The phase that follows. An event that the phase does not wait for changes nothing.
    pub open spec fn next_phase(self, event: SyncEventView) -> SyncPhaseView {
        match (self.phase, event) {
            (SyncPhaseView::FindingAncestor, SyncEventView::AncestorFound(ancestor)) => {
                SyncPhaseView::LoadingAncestor(ancestor)
            },
            (SyncPhaseView::LoadingAncestor(ancestor), SyncEventView::InfoLoaded(info)) => {
                match info {
                    Some(info) => SyncPhaseView::Announcing(ancestor, info),
                    None => SyncPhaseView::Failed(SyncError::InfoNotFound(ancestor.id)),
                }
            },
            (SyncPhaseView::Announcing(ancestor, info), SyncEventView::Announced) => {
                SyncPhaseView::FetchingPeers(ancestor, info)
            },
            (SyncPhaseView::FetchingPeers(from, info), SyncEventView::PeersFetched(_)) => {
                SyncPhaseView::FindingTarget(from, info)
            },
            (SyncPhaseView::FindingTarget(from, _), SyncEventView::TargetFound(target)) => {
                SyncPhaseView::Syncing(from, target)
            },
            (SyncPhaseView::Syncing(_, _), SyncEventView::Synced(status)) => {
                if self.target.target_id.number <= status.head.number {
                    SyncPhaseView::Finished(status)
                } else {
                    SyncPhaseView::FetchingPeers(status.head.spec_id_and_number(), status.info)
                }
            },
            _ => self.phase,
        }
    }

    /// The synchronization after the event.
    pub open spec fn next(self, event: SyncEventView) -> FullSyncView {
        FullSyncView { phase: self.next_phase(event), ..self }
    }

    /// The peers after the event. Fetched peers are taken over, and once the round's target is
    /// found, only its peers stay.
    pub open spec fn next_peers(
        self,
        event: SyncEventView,
        selector: PeerSelectorView,
    ) -> PeerSelectorView {
        match (self.phase, event) {
            (SyncPhaseView::FetchingPeers(_, _), SyncEventView::PeersFetched(peers)) => {
                with_peers(selector, peers)
            },
            (SyncPhaseView::FindingTarget(_, _), SyncEventView::TargetFound(target)) => {
                selector.only_peers(target.peers)
            },
            _ => selector,
        }
    }
}

/// The selector after taking over what each of the peers offers.
pub open spec fn with_peers(selector: PeerSelectorView, peers: Seq<PeerInfo>) -> PeerSelectorView
    decreases peers.len(),
{
    if peers.len() == 0 {
        selector
    } else {
        with_peers(selector, peers.drop_last()).with_peer(peers.last())
    }
}

impl FullSyncTask {
    /// Starts a synchronization with the target. Only the target's peers stay known, and they are
    /// asked for the ancestor.
    pub fn new(
        current_header: &BlockHeader,
        current_info: BlockInfo,
        target: SyncTarget,
        skip_pow_verify: bool,
        max_retry_times: u64,
        selector: &mut PeerSelector,
    ) -> (r: FullSyncTask)
        ensures
            r@ == (FullSyncView {
                current_number: current_header.number,
                current_info,
                target: target@,
                skip_pow_verify,
                max_retry_times,
                phase: SyncPhaseView::FindingAncestor,
            }),
            final(selector)@ == old(selector)@.only_peers(target@.peers),
    {
        selector.retain(target.peers.as_slice());
        FullSyncTask {
            current_number: current_header.number,
            current_info,
            target,
            skip_pow_verify,
            max_retry_times,
            phase: SyncPhase::FindingAncestor,
        }
    }

    /// What the synchronization needs done.
    pub fn action(&self) -> (r: SyncAction)
        ensures
            r@ == self@.action(),
            r matches SyncAction::Sync(round) ==> {
                &&& round.current_block_info == self@.current_info
                &&& round.max_retry_times == self@.max_retry_times
                &&& round.delay_milliseconds_on_error == 100
                &&& round.skip_pow_verify == self@.skip_pow_verify
            },
    {
        match &self.phase {
            SyncPhase::FindingAncestor => SyncAction::FindAncestor(
                AncestorSearch {
                    start_number: self.current_number,
                    target_number: self.target.target_id.number,
                    batch_size: ANCESTOR_BATCH_SIZE,
                    buffer_size: ANCESTOR_BUFFER_SIZE,
                    max_retry_times: self.max_retry_times,
                    delay_milliseconds_on_error: DELAY_MILLISECONDS_ON_ERROR,
                    block_accumulator: self.current_info.block_accumulator_info,
                },
            ),
            SyncPhase::LoadingAncestor(ancestor) => SyncAction::LoadInfo(ancestor.id),
            SyncPhase::Announcing(ancestor, _) => SyncAction::Announce(
                AncestorEvent { ancestor: *ancestor },
            ),
            SyncPhase::FetchingPeers(_, _) => SyncAction::FetchPeers,
            SyncPhase::FindingTarget(_, info) => SyncAction::FindTarget(
                info.total_difficulty,
                self.target.clone(),
            ),
            SyncPhase::Syncing(from, target) => SyncAction::Sync(
                SyncRound {
                    ancestor: *from,
                    target: target.clone(),
                    current_block_info: self.current_info,
                    max_retry_times: self.max_retry_times,
                    delay_milliseconds_on_error: DELAY_MILLISECONDS_ON_ERROR,
                    skip_pow_verify: self.skip_pow_verify,
                },
            ),
            SyncPhase::Finished(status) => SyncAction::Finish(*status),
            SyncPhase::Failed(error) => SyncAction::Fail(*error),
        }
    }

    /// Goes on with what came of the action.
    pub fn step(self, event: SyncEvent, selector: &mut PeerSelector) -> (r: FullSyncTask)
        ensures
            r@ == self@.next(event@),
            final(selector)@ == self@.next_peers(event@, old(selector)@),
    {
        let phase = match (self.phase, event) {
            (SyncPhase::FindingAncestor, SyncEvent::AncestorFound(ancestor)) => {
                SyncPhase::LoadingAncestor(ancestor)
            },
            (SyncPhase::LoadingAncestor(ancestor), SyncEvent::InfoLoaded(info)) => {
                match require_info(ancestor.id, info) {
                    Ok(info) => SyncPhase::Announcing(ancestor, info),
                    Err(error) => SyncPhase::Failed(error),
                }
            },
            (SyncPhase::Announcing(ancestor, info), SyncEvent::Announced) => {
                SyncPhase::FetchingPeers(ancestor, info)
            },
            (SyncPhase::FetchingPeers(from, info), SyncEvent::PeersFetched(peers)) => {
                add_peers(selector, &peers);
                SyncPhase::FindingTarget(from, info)
            },
            (SyncPhase::FindingTarget(from, _), SyncEvent::TargetFound(target)) => {
                selector.retain(target.peers.as_slice());
                SyncPhase::Syncing(from, target)
            },
            (SyncPhase::Syncing(_, _), SyncEvent::Synced(status)) => {
                if self.target.target_id.number <= status.head.number {
                    SyncPhase::Finished(status)
                } else {
                    SyncPhase::FetchingPeers(status.head.id_and_number(), status.info)
                }
            },
            (phase, _) => phase,
        };
        FullSyncTask {
            current_number: self.current_number,
            current_info: self.current_info,
            target: self.target,
            skip_pow_verify: self.skip_pow_verify,
            max_retry_times: self.max_retry_times,
            phase,
        }
    }
}

/// Takes over what each of the peers offers.
fn add_peers(selector: &mut PeerSelector, peers: &Vec<PeerInfo>)
    ensures
        final(selector)@ == with_peers(old(selector)@, peers@),
{
    let ghost all = peers@;
    let mut i: usize = 0;
    while i < peers.len()
        invariant
            i <= peers.len(),
            all == peers@,
            selector@ == with_peers(old(selector)@, all.take(i as int)),
        decreases peers.len() - i,
    {
        assert(all.take(i as int + 1).drop_last() =~= all.take(i as int));
        selector.add_or_update_peer(peers[i]);
        i += 1;
    }
    assert(all.take(all.len() as int) =~= all);
}

/// What is reported about a round.
#[derive(Clone, Copy, Debug, PartialEq, Eq, Structural)]
pub struct RoundReport {
    pub strategy: PeerStrategy,
    /// How many peers were known at the end.
    pub peer_count: usize,
    /// By how many blocks the chain grew.
    pub total_num: u64,
    /// How many milliseconds the round took.
    pub total_time: u128,
    /// How many milliseconds each block took, or zero where there was none.
    pub avg_time: u128,
}

impl RoundReport {
    /// What is reported about a round that started from the block at height `from` and ended with
    /// the newest block at height `head`.
    pub open spec fn of_round(
        from: BlockNumber,
        head: BlockNumber,
        total_time: u128,
        selector: PeerSelectorView,
    ) -> RoundReport {
        let total_num = if head > from {
            (head - from) as u64
        } else {
            0
        };
        RoundReport {
            strategy: selector.strategy,
            peer_count: selector.details.len() as usize,
            total_num,
            total_time,
            avg_time: if total_num == 0 {
                0
            } else {
                total_time / (total_num as u128)
            },
        }
    }

    /// Reports about a round that started from the block at height `from` and ended with the newest
    /// block at height `head`.
    pub fn new(
        from: BlockNumber,
        head: BlockNumber,
        total_time: u128,
        selector: &PeerSelector,
    ) -> (r: RoundReport)
        ensures
            r == RoundReport::of_round(from, head, total_time, selector@),
            r.peer_count == selector@.details.len(),
    {
        let total_num: u64 = head.saturating_sub(from);
        let avg_time: u128 = if total_num == 0 {
            0
        } else {
            total_time / (total_num as u128)
        };
        RoundReport {
            strategy: selector.strategy(),
            peer_count: selector.len(),
            total_num,
            total_time,
            avg_time,
        }
    }

    /// The block count and the time for the metrics, in the lowest 64 bits, with a sign.
    pub fn metrics(&self) -> (r: (i64, i64))
        ensures
            r == (self.total_num as i64, self.total_time as i64),
    {
        (
            #[verifier::truncate]
            (self.total_num as i64),
            #[verifier::truncate]
            (self.total_time as i64),
        )
    }
}

} // verus!
