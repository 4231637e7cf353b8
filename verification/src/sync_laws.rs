//! What requests, replies, searches and synchronizations come to.

use crate::fetch::{answered, found_ids, with_infos, BlockIdsRequest, MissingBlock};
use crate::full_sync::{
    with_peers, FullSyncView, RoundReport, SyncAction, SyncActionView, SyncError, SyncEvent,
    SyncEventView, SyncPhase, SyncPhaseView, SyncRound,
};
use crate::laws::{after_events, law_target_stays, law_with_peer_is_known};
use crate::lemmas::{lemma_filter_agrees, lemma_filter_place, lemma_filter_snoc};
use crate::order::lemma_stable_sort_permutes;
use crate::peer::PeerDetail;
use crate::peer_laws::{
    law_new_peer_comes_last, law_sort_is_ascending, law_update_keeps_score_counter,
};
use crate::roster::{better_infos, ids, lemma_position, marked, position};
use crate::search::{
    are_candidates, confirmers, confirms, first_match, law_search_by_fetching, matches_best,
    SearchStep, SearchView,
};
use crate::selector::PeerSelectorView;
use crate::target::{backers, first_offer, is_majority_target, majority, offers, peer_ids};
use crate::task_error::{condemned, RpcErrorCode};
use crate::types::{
    Block, BlockIdAndNumber, BlockInfo, BlockNumber, ChainStatus, HashValue, PeerId, PeerInfo,
    SyncTargetView,
};
use vstd::prelude::*;

verus! {

/// A single block is asked for upwards from its own height, one at most.
pub proof fn law_single_request(peer: Option<PeerId>, number: BlockNumber)
    ensures
        ({
            let request = BlockIdsRequest::spec_single(peer, number);
            &&& request.peer == peer
            &&& request.start_number == number
            &&& !request.reverse
            &&& request.max_size == 1
        }),
{
}

/// A reply speaks of requested blocks only, and of as many as it lists.
pub proof fn law_answered_is_the_shorter_length<B>(ids: Seq<HashValue>, blocks: Seq<Option<B>>)
    ensures
        answered(ids, blocks) <= ids.len(),
        answered(ids, blocks) <= blocks.len(),
        answered(ids, blocks) == ids.len() || answered(ids, blocks) == blocks.len(),
{
}

/// The texts of the errors quote the block's hash.
pub proof fn law_errors_quote_the_hash(missing: MissingBlock, block: HashValue, id: Seq<char>)
    ensures
        missing.text(id) == "Get block by id: "@ + id + " failed, remote node return None"@,
        SyncError::HeaderNotFound(block).text(id) == "Can not find block header by id: "@ + id,
        SyncError::InfoNotFound(block).text(id) == "Can not find block info by id: "@ + id,
{
}

/// The hashes of the blocks that were found are listed in order: that of each found block stands
/// behind as many as were found before it.
pub proof fn law_found_blocks_are_listed_in_order(blocks: Seq<Option<Block>>)
    ensures
        ({
            let found = |block: Option<Block>| block is Some;
            &&& found_ids(blocks).len() == blocks.filter(found).len()
            &&& forall|i: int|
                0 <= i < blocks.len() ==> (#[trigger] blocks[i] matches Some(block) ==> {
                    &&& blocks.take(i).filter(found).len() < found_ids(blocks).len()
                    &&& found_ids(blocks)[blocks.take(i).filter(found).len() as int]
                        == block.header.id
                })
        }),
    decreases blocks.len(),
{
    let found = |block: Option<Block>| block is Some;
    if blocks.len() == 0 {
        reveal(Seq::filter);
    } else {
        let n = blocks.len() - 1;
        let fewer = blocks.drop_last();
        lemma_filter_snoc(blocks, found);
        law_found_blocks_are_listed_in_order(fewer);
        assert forall|i: int| 0 <= i < blocks.len() implies (#[trigger] blocks[i] matches Some(
            block,
        ) ==> {
            &&& blocks.take(i).filter(found).len() < found_ids(blocks).len()
            &&& found_ids(blocks)[blocks.take(i).filter(found).len() as int] == block.header.id
        }) by {
            if i < n {
                assert(fewer[i] == blocks[i]);
                assert(fewer.take(i) =~= blocks.take(i));
            } else {
                assert(blocks.take(n) =~= fewer);
            }
        }
    }
}

/// Each block that was found is joined with its own info, which stands behind as many infos as
/// blocks were found before it. Other blocks stay missing.
pub proof fn law_found_blocks_take_infos_in_order(
    blocks: Seq<Option<Block>>,
    infos: Seq<Option<BlockInfo>>,
)
    requires
        infos.len() == blocks.filter(|block: Option<Block>| block is Some).len(),
    ensures
        ({
            let found = |block: Option<Block>| block is Some;
            let joined = with_infos(blocks, infos);
            &&& joined.len() == blocks.len()
            &&& forall|i: int|
                0 <= i < blocks.len() ==> match #[trigger] blocks[i] {
                    Some(block) => {
                        &&& blocks.take(i).filter(found).len() < infos.len()
                        &&& joined[i] matches Some(data)
                        &&& data.block == block
                        &&& data.info == infos[blocks.take(i).filter(found).len() as int]
                        &&& data.peer_id is None
                    },
                    None => joined[i] is None,
                }
        }),
    decreases blocks.len(),
{
    let found = |block: Option<Block>| block is Some;
    if blocks.len() > 0 {
        let n = blocks.len() - 1;
        let fewer = blocks.drop_last();
        let fewer_infos = if blocks.last() is Some {
            infos.drop_last()
        } else {
            infos
        };
        lemma_filter_snoc(blocks, found);
        law_found_blocks_take_infos_in_order(fewer, fewer_infos);
        let joined = with_infos(blocks, infos);
        let before = with_infos(fewer, fewer_infos);
        assert forall|i: int| 0 <= i < blocks.len() implies match #[trigger] blocks[i] {
            Some(block) => {
                &&& blocks.take(i).filter(found).len() < infos.len()
                &&& joined[i] matches Some(data)
                &&& data.block == block
                &&& data.info == infos[blocks.take(i).filter(found).len() as int]
                &&& data.peer_id is None
            },
            None => joined[i] is None,
        } by {
            if i < n {
                assert(fewer[i] == blocks[i]);
                assert(fewer.take(i) =~= blocks.take(i));
                assert(joined[i] == before[i]);
            } else {
                assert(blocks.take(n) =~= fewer);
            }
        }
    }
}

/// Where the infos are what the store has about the listed hashes, each block that was found is
/// joined with what the store has about its own hash.
pub proof fn law_blocks_are_joined_with_their_own_infos(
    blocks: Seq<Option<Block>>,
    infos: Seq<Option<BlockInfo>>,
    store: spec_fn(HashValue) -> Option<BlockInfo>,
)
    requires
        infos.len() == found_ids(blocks).len(),
        forall|j: int|
            0 <= j < infos.len() ==> #[trigger] infos[j] == store(found_ids(blocks)[j]),
    ensures
        with_infos(blocks, infos).len() == blocks.len(),
        forall|i: int|
            0 <= i < blocks.len() ==> match #[trigger] blocks[i] {
                Some(block) => {
                    &&& with_infos(blocks, infos)[i] matches Some(data)
                    &&& data.block == block
                    &&& data.info == store(block.header.id)
                    &&& data.peer_id is None
                },
                None => with_infos(blocks, infos)[i] is None,
            },
{
    law_found_blocks_are_listed_in_order(blocks);
    law_found_blocks_take_infos_in_order(blocks, infos);
}

/// The majority target is the newest block of a chain that no chain has more peers than. Its peers
/// are those that offer the chain, in their order. A chain with as many peers was offered before.
pub proof fn law_target_has_most_peers(peers: Seq<PeerInfo>, target: SyncTargetView)
    requires
        is_majority_target(peers, target),
    ensures
        exists|i: int|
            {
                let status = (#[trigger] peers[i]).chain_info.status;
                let same = |peer: PeerInfo| peer.chain_info.status == status;
                &&& 0 <= i < peers.len()
                &&& target.target_id.id == status.head.id
                &&& target.target_id.number == status.head.number
                &&& target.block_info == status.info
                &&& forall|j: int|
                    0 <= j < i ==> (#[trigger] peers[j]).chain_info.status != status
                &&& target.peers.len() == peers.filter(same).len()
                &&& forall|j: int|
                    0 <= j < peers.len() && same(#[trigger] peers[j]) ==> {
                        &&& peers.take(j).filter(same).len() < target.peers.len()
                        &&& target.peers[peers.take(j).filter(same).len() as int]
                            == peers[j].peer_id
                    }
                &&& forall|j: int|
                    0 <= j < peers.len() ==> offered_less(
                        peers,
                        i,
                        (#[trigger] peers[j]).chain_info.status,
                    )
            },
{
    let i = choose|i: int| #[trigger]
        majority(peers, i) && target == SyncTargetView::of_status(
            peers[i].status(),
            backers(peers, peers[i].status()),
        );
    let status = peers[i].chain_info.status;
    let same = |peer: PeerInfo| peer.chain_info.status == status;
    lemma_filter_agrees(peers, offers(status), same);
    assert(first_offer(peers, status, i));
    assert forall|j: int| 0 <= j < i implies (#[trigger] peers[j]).chain_info.status != status by {
        assert(peers[j].status() != status);
    }
    assert forall|j: int| 0 <= j < peers.len() && same(#[trigger] peers[j]) implies {
        &&& peers.take(j).filter(same).len() < target.peers.len()
        &&& target.peers[peers.take(j).filter(same).len() as int] == peers[j].peer_id
    } by {
        lemma_filter_place(peers, same, j);
    }
    assert forall|j: int| 0 <= j < peers.len() implies offered_less(
        peers,
        i,
        (#[trigger] peers[j]).chain_info.status,
    ) by {
        let other = peers[j].chain_info.status;
        lemma_filter_agrees(peers, offers(other), |peer: PeerInfo| peer.chain_info.status == other);
        let f = lemma_first_offer_exists(peers, j);
        assert(first_offer(peers, peers[f].status(), f));
    }
}

/// Fewer peers offer the chain than offer that of the peer at `i`, or as many do and the chain is
/// that of a peer not after it.
pub open spec fn offered_less(peers: Seq<PeerInfo>, i: int, chain: ChainStatus) -> bool {
    let most = peers.filter(
        |peer: PeerInfo| peer.chain_info.status == peers[i].chain_info.status,
    ).len();
    let count = peers.filter(|peer: PeerInfo| peer.chain_info.status == chain).len();
    ||| count < most
    ||| count == most && exists|f: int|
        0 <= f <= i && (#[trigger] peers[f]).chain_info.status == chain
}

/// Some peer is the first to offer what the one at `j` offers.
proof fn lemma_first_offer_exists(peers: Seq<PeerInfo>, j: int) -> (f: int)
    requires
        0 <= j < peers.len(),
    ensures
        0 <= f <= j,
        peers[f].status() == peers[j].status(),
        first_offer(peers, peers[j].status(), f),
    decreases j,
{
    if exists|k: int| 0 <= k < j && (#[trigger] peers[k]).status() == peers[j].status() {
        let k = choose|k: int| 0 <= k < j && (#[trigger] peers[k]).status() == peers[j].status();
        lemma_first_offer_exists(peers, k)
    } else {
        j
    }
}

/// A search is done if and only if every candidate was judged. Peers of the best target need no
/// question. Until there is a new target, the best target's first peer is asked for the hash at the
/// candidate's height, and then the candidate for the one at the new target's height.
pub proof fn law_search_steps(search: SearchView)
    ensures
        search.step() is Done <==> search.pending.len() == 0,
        search.step() is Judge <==> search.pending.len() > 0 && exists|j: int|
            0 <= j < search.best_target.peers.len() && #[trigger] search.best_target.peers[j]
                == search.pending[0].peer_id,
        search.step() matches SearchStep::Ask(request) ==> {
            &&& !request.reverse
            &&& request.max_size == 1
            &&& match search.target_peer {
                None => {
                    &&& request.start_number == search.pending[0].chain_info.status.head.number
                    &&& search.best_target.peers.len() > 0 ==> request.peer == Some(
                        search.best_target.peers[0],
                    )
                    &&& search.best_target.peers.len() == 0 ==> request.peer is None
                },
                Some(target) => {
                    &&& request.start_number == target.chain_info.status.head.number
                    &&& request.peer == Some(search.pending[0].peer_id)
                },
            }
        },
{
    if search.pending.len() > 0 {
        let peers = search.best_target.peers;
        let id = search.pending[0].peer_id;
        if peers.contains(id) {
            let j = choose|j: int| 0 <= j < peers.len() && peers[j] == id;
            assert(search.best_target.peers[j] == search.pending[0].peer_id);
        }
    }
}

/// Judging takes the next candidate off. Where it is a peer of the best target, or the reply is
/// the hash of the new target's block, which is the candidate's newest one where there is no
/// target yet, it becomes the last peer of the new target. The first such candidate gives the new
/// target.
pub proof fn law_search_judges_one_by_one(search: SearchView, reply: Option<HashValue>)
    ensures
        search.pending.len() == 0 ==> search.judged(reply) == search,
        search.pending.len() > 0 ==> {
            let next = search.judged(reply);
            let candidate = search.pending[0];
            let wanted = match search.target_peer {
                Some(target) => target.chain_info.status.head.id,
                None => candidate.chain_info.status.head.id,
            };
            let taken = search.best_target.peers.contains(candidate.peer_id) || reply == Some(
                wanted,
            );
            &&& next.best_target == search.best_target
            &&& next.pending.len() == search.pending.len() - 1
            &&& forall|i: int|
                0 <= i < next.pending.len() ==> #[trigger] next.pending[i] == search.pending[i + 1]
            &&& search.target_peer is Some ==> next.target_peer == search.target_peer
            &&& search.target_peer is None && taken ==> next.target_peer == Some(candidate)
            &&& search.target_peer is None && !taken ==> next.target_peer is None
            &&& taken ==> next.peers == search.peers.push(candidate.peer_id)
            &&& !taken ==> next.peers == search.peers
        },
{
}

/// A search starts without a new target. It ends with the newest block of the peer that gave the
/// new target and the peers that were taken, or with the best target.
pub proof fn law_search_ends(
    search: SearchView,
    best_target: SyncTargetView,
    candidates: Seq<PeerInfo>,
)
    ensures
        ({
            let start = SearchView::fresh(best_target, candidates);
            &&& start.best_target == best_target
            &&& start.pending == candidates
            &&& start.target_peer is None
            &&& start.peers.len() == 0
        }),
        search.target_peer is None ==> search.outcome() == search.best_target,
        search.target_peer matches Some(peer) ==> {
            &&& search.outcome().target_id.id == peer.chain_info.status.head.id
            &&& search.outcome().target_id.number == peer.chain_info.status.head.number
            &&& search.outcome().block_info == peer.chain_info.status.info
            &&& search.outcome().peers == search.peers
        },
{
}

/// The candidates are the better peers, the least difficult first and equally difficult ones in
/// their order. There are none where the best target is not more difficult than the bound.
pub proof fn law_candidates_are_the_better_peers(
    s: Seq<PeerDetail>,
    min_difficulty: nat,
    best_target: SyncTargetView,
    candidates: Seq<PeerInfo>,
    difficulty: nat,
)
    requires
        are_candidates(
            better_infos(s, min_difficulty),
            min_difficulty,
            best_target,
            candidates,
        ),
    ensures
        best_target.block_info.total_difficulty@ <= min_difficulty ==> candidates.len() == 0,
        better_infos(s, min_difficulty) is None ==> candidates.len() == 0,
        best_target.block_info.total_difficulty@ > min_difficulty ==> (better_infos(
            s,
            min_difficulty,
        ) matches Some(betters) ==> {
            let same = |peer: PeerInfo|
                peer.chain_info.status.info.total_difficulty@ == difficulty;
            &&& candidates.to_multiset() == betters.to_multiset()
            &&& candidates.filter(same) == betters.filter(same)
        }),
        forall|i: int, j: int|
            0 <= i <= j < candidates.len() ==> (
            #[trigger] candidates[i]).chain_info.status.info.total_difficulty@ <= (
            #[trigger] candidates[j]).chain_info.status.info.total_difficulty@,
{
    if best_target.block_info.total_difficulty@ > min_difficulty {
        if let Some(betters) = better_infos(s, min_difficulty) {
            lemma_stable_sort_permutes(betters, candidates);
            law_sort_is_ascending(betters, candidates, difficulty);
        }
    }
}

/// The search at its end when it is driven by its steps: what it asks is answered by `fetch`, and
/// it stops where the step is to be done.
pub open spec fn driven(
    search: SearchView,
    fetch: spec_fn(BlockIdsRequest) -> Option<HashValue>,
) -> SearchView
    decreases search.pending.len(),
{
    match search.step() {
        SearchStep::Done => search,
        SearchStep::Judge => driven(search.judged(None), fetch),
        SearchStep::Ask(request) => driven(search.judged(fetch(request)), fetch),
    }
}

/// Driving a search by its steps is running it until no candidate is left.
proof fn lemma_driven_is_run(
    search: SearchView,
    fetch: spec_fn(BlockIdsRequest) -> Option<HashValue>,
)
    ensures
        driven(search, fetch) == search.run(fetch),
        driven(search, fetch).pending.len() == 0,
    decreases search.pending.len(),
{
    if search.pending.len() > 0 {
        lemma_driven_is_run(search.judged(search.reply(fetch)), fetch);
    }
}

/// What it takes to give a new target and to help with one, in terms of the hashes that peers have.
pub proof fn law_matches_in_hashes(
    best_target: SyncTargetView,
    fetch: spec_fn(BlockIdsRequest) -> Option<HashValue>,
    lead: PeerInfo,
    candidate: PeerInfo,
)
    ensures
        best_target.peers.len() > 0 ==> (matches_best(best_target, fetch, candidate) <==> {
            ||| best_target.peers.contains(candidate.peer_id)
            ||| fetch(
                BlockIdsRequest {
                    peer: Some(best_target.peers[0]),
                    start_number: candidate.chain_info.status.head.number,
                    reverse: false,
                    max_size: 1,
                },
            ) == Some(candidate.chain_info.status.head.id)
        }),
        best_target.peers.len() == 0 ==> (matches_best(best_target, fetch, candidate) <==> fetch(
            BlockIdsRequest {
                peer: None,
                start_number: candidate.chain_info.status.head.number,
                reverse: false,
                max_size: 1,
            },
        ) == Some(candidate.chain_info.status.head.id)),
        confirms(best_target, fetch, lead, candidate) <==> {
            ||| best_target.peers.contains(candidate.peer_id)
            ||| fetch(
                BlockIdsRequest {
                    peer: Some(candidate.peer_id),
                    start_number: lead.chain_info.status.head.number,
                    reverse: false,
                    max_size: 1,
                },
            ) == Some(lead.chain_info.status.head.id)
        },
{
}

/// A search that is driven by its steps until it is done goes through every candidate.
///
/// The first candidate that is a peer of the best target, or whose newest block the best target's
/// first peer has, gives the new target. That candidate and each later one that is a peer of the
/// best target or has that block are the new target's peers, in their order. Where there is no
/// such candidate, the best target stays.
pub proof fn law_driven_search_finds_the_first_match(
    s: Seq<PeerDetail>,
    min_difficulty: nat,
    best_target: SyncTargetView,
    candidates: Seq<PeerInfo>,
    fetch: spec_fn(BlockIdsRequest) -> Option<HashValue>,
)
    requires
        are_candidates(
            better_infos(s, min_difficulty),
            min_difficulty,
            best_target,
            candidates,
        ),
    ensures
        ({
            let end = driven(SearchView::fresh(best_target, candidates), fetch);
            &&& end.pending.len() == 0
            &&& forall|k: int|
                {
                    &&& 0 <= k < candidates.len()
                    &&& matches_best(best_target, fetch, #[trigger] candidates[k])
                    &&& forall|i: int|
                        0 <= i < k ==> !matches_best(best_target, fetch, #[trigger] candidates[i])
                } ==> {
                    let chain = candidates[k].chain_info.status;
                    &&& end.outcome().target_id.id == chain.head.id
                    &&& end.outcome().target_id.number == chain.head.number
                    &&& end.outcome().block_info == chain.info
                    &&& end.outcome().peers == marked(
                        peer_ids(candidates),
                        Seq::new(
                            candidates.len(),
                            |i: int|
                                i == k || (i > k && confirms(
                                    best_target,
                                    fetch,
                                    candidates[k],
                                    candidates[i],
                                )),
                        ),
                    )
                }
            &&& (forall|i: int|
                0 <= i < candidates.len() ==> !matches_best(
                    best_target,
                    fetch,
                    #[trigger] candidates[i],
                )) ==> end.outcome() == best_target
        }),
{
    let start = SearchView::fresh(best_target, candidates);
    lemma_driven_is_run(start, fetch);
    law_search_by_fetching(s, min_difficulty, best_target, candidates, fetch);
    assert forall|k: int|
        {
            &&& 0 <= k < candidates.len()
            &&& matches_best(best_target, fetch, #[trigger] candidates[k])
            &&& forall|i: int|
                0 <= i < k ==> !matches_best(best_target, fetch, #[trigger] candidates[i])
        } implies first_match(best_target, fetch, candidates, k) && confirmers(
        best_target,
        fetch,
        candidates,
        k,
    ) == Seq::new(
        candidates.len(),
        |i: int|
            i == k || (i > k && confirms(best_target, fetch, candidates[k], candidates[i])),
    ) by {
        assert(confirmers(best_target, fetch, candidates, k) =~= Seq::new(
            candidates.len(),
            |i: int|
                i == k || (i > k && confirms(best_target, fetch, candidates[k], candidates[i])),
        ));
    }
}

/// The identities of the peers are listed in their order.
pub proof fn law_identities_in_order(peers: Seq<PeerInfo>, i: int)
    requires
        0 <= i < peers.len(),
    ensures
        peer_ids(peers).len() == peers.len(),
        peer_ids(peers)[i] == peers[i].peer_id,
{
}

/// The peer that an error names is to be forgotten where it answered with one of the codes that
/// make it useless, and only there.
pub proof fn law_useless_peers_are_condemned(peer: PeerId, code: RpcErrorCode)
    ensures
        condemned(Some(peer), Some(RpcErrorCode::Forbidden)) == Some(peer),
        condemned(Some(peer), Some(RpcErrorCode::MethodNotFound)) == Some(peer),
        condemned(Some(peer), Some(RpcErrorCode::ServerUnavailable)) == Some(peer),
        condemned(Some(peer), Some(RpcErrorCode::Unknown)) == Some(peer),
        condemned(Some(peer), Some(RpcErrorCode::InternalError)) == Some(peer),
        condemned(Some(peer), Some(RpcErrorCode::Other)) is None,
        condemned(Some(peer), None) is None,
        condemned(None, Some(code)) is None,
        condemned(None, None) is None,
        code.spec_is_fatal() <==> condemned(Some(peer), Some(code)) is Some,
{
}

/// Whatever happened since the start, a round is run with what the synchronization was started
/// with: whether proofs of work are checked, how often is retried, and what was kept about the
/// block that was the newest. So is the search for the ancestor.
pub proof fn law_rounds_carry_what_was_asked_for(start: FullSyncView, events: Seq<SyncEventView>)
    ensures
        after_events(start, events).action() matches SyncActionView::Sync(round) ==> {
            &&& round.skip_pow_verify == start.skip_pow_verify
            &&& round.max_retry_times == start.max_retry_times
            &&& round.current_block_info == start.current_info
            &&& round.delay_milliseconds_on_error == 100
        },
        after_events(start, events).action() matches SyncActionView::FindAncestor(search) ==> {
            &&& search.start_number == start.current_number
            &&& search.target_number == start.target.target_id.number
            &&& search.batch_size == 10
            &&& search.buffer_size == 2
            &&& search.max_retry_times == start.max_retry_times
            &&& search.delay_milliseconds_on_error == 100
            &&& search.block_accumulator == start.current_info.block_accumulator_info
        },
        after_events(start, events).action() matches SyncActionView::FindTarget(_, best)
            ==> best == start.target,
{
    law_target_stays(start, events);
}

/// From the start, the ancestor is looked for, what is kept about it is loaded, without which the
/// synchronization fails, and it is announced. Then the first round begins from it.
pub proof fn law_start_leads_to_the_first_round(
    start: FullSyncView,
    ancestor: BlockIdAndNumber,
    info: BlockInfo,
)
    requires
        start.phase is FindingAncestor,
    ensures
        ({
            let found = start.next(SyncEventView::AncestorFound(ancestor));
            let failed = found.next(SyncEventView::InfoLoaded(None));
            let loaded = found.next(SyncEventView::InfoLoaded(Some(info)));
            let announced = loaded.next(SyncEventView::Announced);
            &&& start.action() is FindAncestor
            &&& found.action() == SyncActionView::LoadInfo(ancestor.id)
            &&& failed.action() == SyncActionView::Fail(SyncError::InfoNotFound(ancestor.id))
            &&& loaded.action() matches SyncActionView::Announce(event)
            &&& event.ancestor == ancestor
            &&& announced.phase == SyncPhaseView::FetchingPeers(ancestor, info)
        }),
{
}

/// A round fetches the peers, finds a target above the total difficulty of the block that it goes
/// on from, unless nothing is better than the target of all, and fetches the blocks from that
/// block to the round's target. The synchronization is finished where the newest block is as high
/// as the target of all, and otherwise the next round goes on from the newest block.
pub proof fn law_rounds_go_on_to_the_target(
    task: FullSyncView,
    from: BlockIdAndNumber,
    info: BlockInfo,
    peers: Seq<PeerInfo>,
    target: SyncTargetView,
    status: ChainStatus,
)
    requires
        task.phase == SyncPhaseView::FetchingPeers(from, info),
    ensures
        ({
            let fetched = task.next(SyncEventView::PeersFetched(peers));
            let aimed = fetched.next(SyncEventView::TargetFound(target));
            let synced = aimed.next(SyncEventView::Synced(status));
            &&& task.action() is FetchPeers
            &&& fetched.action() == SyncActionView::FindTarget(
                info.total_difficulty@,
                task.target,
            )
            &&& aimed.action() matches SyncActionView::Sync(round)
            &&& round.ancestor == from
            &&& round.target == target
            &&& round.current_block_info == task.current_info
            &&& round.max_retry_times == task.max_retry_times
            &&& round.delay_milliseconds_on_error == 100
            &&& round.skip_pow_verify == task.skip_pow_verify
            &&& status.head.number >= task.target.target_id.number ==> synced.action()
                == SyncActionView::Finish(status)
            &&& status.head.number < task.target.target_id.number ==> synced.phase
                == SyncPhaseView::FetchingPeers(
                BlockIdAndNumber { id: status.head.id, number: status.head.number },
                status.info,
            )
        }),
{
}

/// The event tells what came of the action.
pub open spec fn answers(event: SyncEventView, action: SyncActionView) -> bool {
    ||| event is AncestorFound && action is FindAncestor
    ||| event is InfoLoaded && action is LoadInfo
    ||| event is Announced && action is Announce
    ||| event is PeersFetched && action is FetchPeers
    ||| event is TargetFound && action is FindTarget
    ||| event is Synced && action is Sync
}

/// What does not tell what came of the action changes neither the synchronization nor the peers.
/// The peers change with fetched peers and with a round's target only, and no event changes what
/// the synchronization was started with.
pub proof fn law_only_answers_count(
    task: FullSyncView,
    event: SyncEventView,
    peers: PeerSelectorView,
)
    ensures
        !answers(event, task.action()) ==> task.next(event) == task && task.next_peers(event, peers)
            == peers,
        !(event is PeersFetched) && !(event is TargetFound) ==> task.next_peers(event, peers)
            == peers,
        answers(event, task.action()) ==> (event matches SyncEventView::PeersFetched(fetched)
            ==> task.next_peers(event, peers) == with_peers(peers, fetched)),
        answers(event, task.action()) ==> (event matches SyncEventView::TargetFound(target)
            ==> task.next_peers(event, peers) == peers.only_peers(target.peers)),
        task.next(event).target == task.target,
        task.next(event).current_number == task.current_number,
        task.next(event).current_info == task.current_info,
        task.next(event).max_retry_times == task.max_retry_times,
        task.next(event).skip_pow_verify == task.skip_pow_verify,
{
}

/// Fetched peers are taken over one after the other. Known peers keep their places and their
/// scores, new ones come behind with a score of one, and the running total and the strategy stay.
pub proof fn law_fetched_peers_are_taken_over(view: PeerSelectorView, peers: Seq<PeerInfo>)
    ensures
        ({
            let after = with_peers(view, peers);
            let n = view.details.len() as int;
            &&& peers.len() == 0 ==> after == view
            &&& peers.len() > 0 ==> after == with_peers(view, peers.drop_last()).with_peer(
                peers.last(),
            )
            &&& n <= after.details.len() <= n + peers.len()
            &&& after.total_score == view.total_score
            &&& after.strategy == view.strategy
            &&& forall|k: int|
                0 <= k < n ==> {
                    &&& (#[trigger] after.details[k]).peer_info.peer_id
                        == view.details[k].peer_info.peer_id
                    &&& after.details[k].score_counter == view.details[k].score_counter
                }
            &&& forall|k: int|
                n <= k < after.details.len() ==> {
                    &&& (#[trigger] after.details[k]).score_counter.score == 1
                    &&& after.details[k].score_counter.times == 1
                }
        }),
    decreases peers.len(),
{
    if peers.len() > 0 {
        let before = with_peers(view, peers.drop_last());
        law_fetched_peers_are_taken_over(view, peers.drop_last());
        let last = peers.last();
        lemma_position(before.details, last.peer_id);
        let i = position(before.details, last.peer_id);
        if i < before.details.len() {
            law_update_keeps_score_counter(before, last, i);
        } else {
            law_new_peer_comes_last(before, last);
        }
    }
}

/// What the last of the fetched peers of one identity offers is what is known of the peer then.
pub proof fn law_last_fetched_offer_counts(view: PeerSelectorView, peers: Seq<PeerInfo>, i: int)
    requires
        0 <= i < peers.len(),
        forall|j: int| i < j < peers.len() ==> (#[trigger] peers[j]).peer_id != peers[i].peer_id,
    ensures
        exists|k: int|
            {
                &&& 0 <= k < with_peers(view, peers).details.len()
                &&& (#[trigger] with_peers(view, peers).details[k]).peer_info == peers[i]
                &&& forall|m: int|
                    0 <= m < k ==> (
                    #[trigger] with_peers(view, peers).details[m]).peer_info.peer_id
                        != peers[i].peer_id
            },
    decreases peers.len(),
{
    let id = peers[i].peer_id;
    let before = with_peers(view, peers.drop_last());
    let last = peers.last();
    let t = with_peers(view, peers).details;
    law_with_peer_is_known(before, last, id);
    lemma_position(t, id);
    if i < peers.len() - 1 {
        assert(peers[peers.len() - 1].peer_id != id);
        let fewer = peers.drop_last();
        assert forall|j: int| i < j < fewer.len() implies (#[trigger] fewer[j]).peer_id
            != fewer[i].peer_id by {
            assert(fewer[j] == peers[j]);
        }
        law_last_fetched_offer_counts(view, fewer, i);
        let s = before.details;
        let k = choose|k: int|
            {
                &&& 0 <= k < s.len()
                &&& (#[trigger] s[k]).peer_info == peers[i]
                &&& forall|m: int| 0 <= m < k ==> (#[trigger] s[m]).peer_info.peer_id != id
            };
        crate::roster::lemma_position_at(s, id, k);
        assert(ids(s)[k] == id);
        assert(t[position(t, id)].peer_info == peers[i]);
    } else {
        assert(t[position(t, id)].peer_info == peers[i]);
    }
}

/// A report gives by how many blocks the chain grew, none where it did not, and the time that each
/// took, rounded down.
pub proof fn law_report_counts_blocks(
    from: BlockNumber,
    head: BlockNumber,
    total_time: u128,
    selector: PeerSelectorView,
)
    requires
        selector.details.len() <= usize::MAX,
    ensures
        ({
            let report = RoundReport::of_round(from, head, total_time, selector);
            &&& report.strategy == selector.strategy
            &&& report.peer_count == selector.details.len()
            &&& report.total_time == total_time
            &&& head >= from ==> report.total_num == head - from
            &&& head < from ==> report.total_num == 0
            &&& report.total_num == 0 ==> report.avg_time == 0
            &&& report.total_num > 0 ==> report.avg_time * report.total_num <= total_time < (
            report.avg_time + 1) * report.total_num
        }),
{
    let report = RoundReport::of_round(from, head, total_time, selector);
    if report.total_num > 0 {
        let x = total_time as int;
        let d = report.total_num as int;
        let q = x / d;
        vstd::arithmetic::div_mod::lemma_fundamental_div_mod(x, d);
        vstd::arithmetic::div_mod::lemma_mod_bound(x, d);
        assert(q * d == d * q) by (nonlinear_arith);
        assert((q + 1) * d == q * d + d) by (nonlinear_arith);
        assert(report.avg_time == q);
    }
}

/// The views of events, actions, rounds and phases say all that these do.
pub proof fn law_views_say_all(
    event: SyncEvent,
    action: SyncAction,
    round: SyncRound,
    phase: SyncPhase,
)
    ensures
        match event {
            SyncEvent::AncestorFound(ancestor) => event@ == SyncEventView::AncestorFound(ancestor),
            SyncEvent::InfoLoaded(info) => event@ == SyncEventView::InfoLoaded(info),
            SyncEvent::Announced => event@ == SyncEventView::Announced,
            SyncEvent::PeersFetched(peers) => event@ == SyncEventView::PeersFetched(peers@),
            SyncEvent::TargetFound(target) => event@ == SyncEventView::TargetFound(target@),
            SyncEvent::Synced(status) => event@ == SyncEventView::Synced(status),
        },
        match action {
            SyncAction::FindAncestor(search) => action@ == SyncActionView::FindAncestor(search),
            SyncAction::LoadInfo(id) => action@ == SyncActionView::LoadInfo(id),
            SyncAction::Announce(announced) => action@ == SyncActionView::Announce(announced),
            SyncAction::FetchPeers => action@ == SyncActionView::FetchPeers,
            SyncAction::FindTarget(difficulty, target) => action@ == SyncActionView::FindTarget(
                difficulty@,
                target@,
            ),
            SyncAction::Sync(next) => action@ == SyncActionView::Sync(next@),
            SyncAction::Finish(status) => action@ == SyncActionView::Finish(status),
            SyncAction::Fail(error) => action@ == SyncActionView::Fail(error),
        },
        round@.ancestor == round.ancestor,
        round@.target == round.target@,
        round@.current_block_info == round.current_block_info,
        round@.max_retry_times == round.max_retry_times,
        round@.delay_milliseconds_on_error == round.delay_milliseconds_on_error,
        round@.skip_pow_verify == round.skip_pow_verify,
        match phase {
            SyncPhase::FindingAncestor => phase@ == SyncPhaseView::FindingAncestor,
            SyncPhase::LoadingAncestor(ancestor) => phase@ == SyncPhaseView::LoadingAncestor(
                ancestor,
            ),
            SyncPhase::Announcing(ancestor, info) => phase@ == SyncPhaseView::Announcing(
                ancestor,
                info,
            ),
            SyncPhase::FetchingPeers(from, info) => phase@ == SyncPhaseView::FetchingPeers(
                from,
                info,
            ),
            SyncPhase::FindingTarget(from, info) => phase@ == SyncPhaseView::FindingTarget(
                from,
                info,
            ),
            SyncPhase::Syncing(from, target) => phase@ == SyncPhaseView::Syncing(from, target@),
            SyncPhase::Finished(status) => phase@ == SyncPhaseView::Finished(status),
            SyncPhase::Failed(error) => phase@ == SyncPhaseView::Failed(error),
        },
{
}

} // verus!
