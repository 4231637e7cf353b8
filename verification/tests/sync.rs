use peer_sync::fetch::{
    collect_blocks, infos_to_load, join_infos, single_block_id, single_block_info, BlockIdsRequest,
    MissingBlock,
};
use peer_sync::full_sync::{
    require_header, require_info, AncestorSearch, FullSyncTask, RoundReport, SyncAction, SyncError,
    SyncEvent,
};
use peer_sync::search::{BetterTargetSearch, SearchStep};
use peer_sync::selector::PeerSelector;
use peer_sync::strategy::PeerStrategy;
use peer_sync::target::{get_best_target, majority_target};
use peer_sync::task_error::{handle_task_error, RpcErrorCode};
use peer_sync::types::{
    AccumulatorInfo, AncestorEvent, Block, BlockHeader, BlockIdAndNumber, BlockInfo, ChainInfo,
    ChainStatus, HashValue, PeerId, PeerInfo, SyncTarget, U256,
};

fn id(n: u128) -> PeerId {
    PeerId { hi: 0, mid: 0, lo: n }
}

fn hash(n: u128) -> HashValue {
    HashValue { hi: 0, lo: n }
}

fn difficulty(n: u128) -> U256 {
    U256 { hi: 0, lo: n }
}

fn accumulator(n: u64) -> AccumulatorInfo {
    AccumulatorInfo { accumulator_root: hash(0), num_leaves: n, num_nodes: 2 * n }
}

fn block_info(block: u128, d: u128) -> BlockInfo {
    BlockInfo {
        block_id: hash(block),
        total_difficulty: difficulty(d),
        txn_accumulator_info: accumulator(1),
        block_accumulator_info: accumulator(2),
    }
}

fn status(block: u128, number: u64, d: u128) -> ChainStatus {
    ChainStatus { head: BlockHeader { id: hash(block), number }, info: block_info(block, d) }
}

/// Peer `n`, whose newest block is `block` at height `number`.
fn info(n: u128, block: u128, number: u64, d: u128) -> PeerInfo {
    PeerInfo { peer_id: id(n), chain_info: ChainInfo { status: status(block, number, d) } }
}

fn target(block: u128, number: u64, d: u128, peers: Vec<u128>) -> SyncTarget {
    SyncTarget {
        target_id: BlockIdAndNumber::new(hash(block), number),
        block_info: block_info(block, d),
        peers: peers.into_iter().map(id).collect(),
    }
}

fn assert_target(found: &SyncTarget, block: u128, number: u64, d: u128, peers: Vec<u128>) {
    assert_eq!(found.target_id, BlockIdAndNumber::new(hash(block), number));
    assert_eq!(found.block_info, block_info(block, d));
    let numbers: Vec<u128> = found.peers.iter().map(|peer| peer.lo).collect();
    assert_eq!(numbers, peers);
}

fn selector(peers: Vec<PeerInfo>) -> PeerSelector {
    PeerSelector::new(peers, PeerStrategy::Best)
}

#[test]
fn the_best_target_is_what_most_of_the_best_offer() {
    let peers = selector(vec![
        info(1, 50, 5, 9),
        info(2, 60, 6, 9),
        info(3, 50, 5, 9),
        info(4, 70, 7, 8),
    ]);
    let found = get_best_target(&peers, difficulty(8)).unwrap();
    assert_target(&found, 50, 5, 9, vec![3, 1]);
    assert!(get_best_target(&peers, difficulty(9)).is_none());
    assert!(get_best_target(&selector(vec![]), difficulty(0)).is_none());
}

#[test]
fn a_tie_goes_to_the_chain_that_comes_last() {
    let peers = vec![
        info(1, 50, 5, 9),
        info(2, 60, 6, 9),
        info(3, 60, 6, 9),
        info(4, 50, 5, 9),
        info(5, 70, 5, 9),
    ];
    assert_target(&majority_target(&peers).unwrap(), 60, 6, 9, vec![2, 3]);
    assert!(majority_target(&vec![]).is_none());
}

#[test]
fn a_chain_that_all_offer_is_the_target_of_all() {
    let peers = vec![info(1, 50, 5, 9), info(2, 50, 5, 9), info(3, 50, 5, 9)];
    assert_target(&majority_target(&peers).unwrap(), 50, 5, 9, vec![1, 2, 3]);
}

#[test]
fn a_search_without_a_better_chain_keeps_the_target() {
    let peers = selector(vec![info(1, 50, 5, 9)]);
    let search = BetterTargetSearch::new(&peers, difficulty(9), target(80, 8, 20, vec![1]));
    assert_eq!(search.next_step(), SearchStep::Done);
    assert_target(&search.finish(), 80, 8, 20, vec![1]);
}

#[test]
fn a_search_is_over_where_the_target_is_not_better() {
    let peers = selector(vec![info(1, 50, 5, 30)]);
    let search = BetterTargetSearch::new(&peers, difficulty(20), target(80, 8, 20, vec![1]));
    assert_eq!(search.next_step(), SearchStep::Done);
    assert_target(&search.finish(), 80, 8, 20, vec![1]);
}

#[test]
fn a_search_goes_from_the_least_difficult_chain_up() {
    let peers = selector(vec![
        info(1, 80, 8, 20),
        info(2, 60, 6, 12),
        info(3, 50, 5, 10),
        info(4, 90, 9, 25),
        info(5, 40, 4, 3),
    ]);
    let mut search = BetterTargetSearch::new(&peers, difficulty(5), target(80, 8, 20, vec![1]));
    assert_eq!(
        search.next_step(),
        SearchStep::Ask(BlockIdsRequest::single(Some(id(1)), 5))
    );
    search.judge(Some(hash(51)));
    assert_eq!(
        search.next_step(),
        SearchStep::Ask(BlockIdsRequest::single(Some(id(1)), 6))
    );
    search.judge(Some(hash(60)));
    assert_eq!(search.next_step(), SearchStep::Judge);
    search.judge(None);
    assert_eq!(
        search.next_step(),
        SearchStep::Ask(BlockIdsRequest::single(Some(id(4)), 6))
    );
    search.judge(Some(hash(60)));
    assert_eq!(search.next_step(), SearchStep::Done);
    search.judge(Some(hash(60)));
    assert_target(&search.finish(), 60, 6, 12, vec![2, 1, 4]);
}

/// The hash in the reply to a request, where every peer has the blocks of one chain.
fn fetch(request: BlockIdsRequest) -> Option<HashValue> {
    match request.start_number {
        5 => Some(hash(51)),
        6 => Some(hash(60)),
        _ => None,
    }
}

#[test]
fn a_search_by_fetching_starts_with_the_least_difficult_match() {
    let peers = selector(vec![
        info(4, 90, 9, 25),
        info(3, 50, 5, 10),
        info(2, 60, 6, 12),
        info(6, 70, 7, 12),
    ]);
    let mut search = BetterTargetSearch::new(&peers, difficulty(5), target(80, 8, 20, vec![1]));
    loop {
        match search.next_step() {
            SearchStep::Ask(request) => search.judge(fetch(request)),
            SearchStep::Judge => search.judge(None),
            SearchStep::Done => break,
        }
    }
    assert_target(&search.finish(), 60, 6, 12, vec![2, 6, 4]);
}

#[test]
fn a_search_drops_peers_that_do_not_confirm() {
    let peers = selector(vec![info(1, 50, 5, 10), info(2, 60, 6, 12), info(3, 70, 7, 14)]);
    let mut search = BetterTargetSearch::new(&peers, difficulty(5), target(80, 8, 20, vec![1]));
    assert_eq!(search.next_step(), SearchStep::Judge);
    search.judge(None);
    search.judge(None);
    search.judge(Some(hash(70)));
    assert_target(&search.finish(), 50, 5, 10, vec![1]);
}

#[test]
fn a_search_without_target_peers_asks_anyone() {
    let peers = selector(vec![info(1, 50, 5, 10)]);
    let mut search = BetterTargetSearch::new(&peers, difficulty(5), target(80, 8, 20, vec![]));
    assert_eq!(search.next_step(), SearchStep::Ask(BlockIdsRequest::single(None, 5)));
    search.judge(None);
    assert_target(&search.finish(), 80, 8, 20, vec![]);
}

#[test]
fn a_single_hash_is_requested_upwards() {
    let request = BlockIdsRequest::single(Some(id(3)), 12);
    assert_eq!(request.peer, Some(id(3)));
    assert_eq!(request.start_number, 12);
    assert!(!request.reverse);
    assert_eq!(request.max_size, 1);
}

#[test]
fn a_single_reply_is_the_last_one() {
    assert_eq!(single_block_id(vec![hash(1), hash(2)]), Some(hash(2)));
    assert_eq!(single_block_id(vec![]), None);
    assert_eq!(
        single_block_info(vec![None, Some(block_info(1, 2))]),
        Some(block_info(1, 2))
    );
    assert_eq!(single_block_info(vec![Some(block_info(1, 2)), None]), None);
    assert_eq!(single_block_info(vec![]), None);
}

#[test]
fn blocks_are_collected_in_order() {
    let ids = vec![hash(1), hash(2), hash(3)];
    assert_eq!(collect_blocks(&ids, vec![Some(10), Some(20), Some(30)]), Ok(vec![10, 20, 30]));
    assert_eq!(collect_blocks(&ids, vec![Some(10)]), Ok(vec![10]));
    assert_eq!(
        collect_blocks(&ids, vec![Some(10), Some(20), Some(30), None]),
        Ok(vec![10, 20, 30])
    );
}

#[test]
fn the_first_missing_block_is_an_error() {
    let ids = vec![hash(1), hash(2), hash(3)];
    assert_eq!(
        collect_blocks(&ids, vec![Some(10), None, None]),
        Err(MissingBlock { id: hash(2) })
    );
}

fn block(n: u128) -> Block {
    Block { header: BlockHeader { id: hash(n), number: n as u64 }, body: vec![n as u8] }
}

#[test]
fn stored_blocks_are_joined_with_their_infos() {
    let blocks = vec![Some(block(1)), None, Some(block(3))];
    assert_eq!(infos_to_load(&blocks), vec![hash(1), hash(3)]);
    let joined = join_infos(blocks, vec![None, Some(block_info(3, 9))]);
    assert_eq!(joined.len(), 3);
    let first = joined[0].clone().unwrap();
    assert_eq!(first.block.id(), hash(1));
    assert_eq!(first.block.body, vec![1]);
    assert_eq!(first.info, None);
    assert_eq!(first.peer_id, None);
    assert!(joined[1].is_none());
    let third = joined[2].clone().unwrap();
    assert_eq!(third.block.id(), hash(3));
    assert_eq!(third.info, Some(block_info(3, 9)));
}

#[test]
fn errors_have_texts() {
    let missing = MissingBlock { id: hash(2) };
    assert_eq!(
        missing.message("0x02"),
        "Get block by id: 0x02 failed, remote node return None"
    );
    let header = SyncError::HeaderNotFound(hash(1));
    assert_eq!(header.message("0x01"), "Can not find block header by id: 0x01");
    assert_eq!(header.block_id(), hash(1));
    let info = SyncError::InfoNotFound(hash(3));
    assert_eq!(info.message("0x03"), "Can not find block info by id: 0x03");
    assert_eq!(info.block_id(), hash(3));
}

#[test]
fn a_sync_needs_a_header_and_an_info() {
    let header = BlockHeader { id: hash(1), number: 1 };
    assert_eq!(require_header(hash(1), Some(header)), Ok(header));
    assert_eq!(require_header(hash(1), None), Err(SyncError::HeaderNotFound(hash(1))));
    assert_eq!(require_info(hash(1), Some(block_info(1, 2))), Ok(block_info(1, 2)));
    assert_eq!(require_info(hash(1), None), Err(SyncError::InfoNotFound(hash(1))));
}

fn started(peers: &mut PeerSelector) -> FullSyncTask {
    let header = BlockHeader { id: hash(3), number: 3 };
    FullSyncTask::new(&header, block_info(3, 3), target(80, 8, 20, vec![1]), true, 5, peers)
}

#[test]
fn a_sync_starts_with_the_search_for_the_ancestor() {
    let mut peers = selector(vec![info(1, 80, 8, 20), info(2, 60, 6, 12)]);
    let task = started(&mut peers);
    assert_eq!(peers.peers(), vec![id(1)]);
    assert_eq!(peers.total_score(), 1);
    match task.action() {
        SyncAction::FindAncestor(search) => assert_eq!(
            search,
            AncestorSearch {
                start_number: 3,
                target_number: 8,
                batch_size: 10,
                buffer_size: 2,
                max_retry_times: 5,
                delay_milliseconds_on_error: 100,
                block_accumulator: accumulator(2),
            }
        ),
        other => panic!("{:?}", other),
    }
}

#[test]
fn a_sync_goes_on_round_by_round() {
    let mut peers = selector(vec![info(1, 80, 8, 20)]);
    let task = started(&mut peers);
    let ancestor = BlockIdAndNumber::new(hash(2), 2);
    let task = task.step(SyncEvent::AncestorFound(ancestor), &mut peers);
    assert!(matches!(task.action(), SyncAction::LoadInfo(found) if found == hash(2)));
    let task = task.step(SyncEvent::InfoLoaded(Some(block_info(2, 2))), &mut peers);
    assert!(matches!(
        task.action(),
        SyncAction::Announce(event) if event == AncestorEvent { ancestor }
    ));
    let task = task.step(SyncEvent::Announced, &mut peers);
    assert!(matches!(task.action(), SyncAction::FetchPeers));
    let fetched = vec![info(2, 60, 6, 12), info(1, 81, 9, 21)];
    let task = task.step(SyncEvent::PeersFetched(fetched), &mut peers);
    assert_eq!(peers.peers(), vec![id(1), id(2)]);
    assert_eq!(peers.peer_info(&id(1)), Some(info(1, 81, 9, 21)));
    match task.action() {
        SyncAction::FindTarget(bound, best) => {
            assert_eq!(bound, difficulty(2));
            assert_target(&best, 80, 8, 20, vec![1]);
        }
        other => panic!("{:?}", other),
    }
    let task = task.step(SyncEvent::TargetFound(target(60, 6, 12, vec![2])), &mut peers);
    assert_eq!(peers.peers(), vec![id(2)]);
    match task.action() {
        SyncAction::Sync(round) => {
            assert_eq!(round.ancestor, ancestor);
            assert_target(&round.target, 60, 6, 12, vec![2]);
            assert_eq!(round.current_block_info, block_info(3, 3));
            assert_eq!(round.max_retry_times, 5);
            assert_eq!(round.delay_milliseconds_on_error, 100);
            assert!(round.skip_pow_verify);
        }
        other => panic!("{:?}", other),
    }
    let task = task.step(SyncEvent::Synced(status(60, 6, 12)), &mut peers);
    assert!(matches!(task.action(), SyncAction::FetchPeers));
    let task = task.step(SyncEvent::PeersFetched(vec![info(1, 80, 8, 20)]), &mut peers);
    match task.action() {
        SyncAction::FindTarget(bound, _) => assert_eq!(bound, difficulty(12)),
        other => panic!("{:?}", other),
    }
    let task = task.step(SyncEvent::TargetFound(target(80, 8, 20, vec![1])), &mut peers);
    match task.action() {
        SyncAction::Sync(round) => {
            assert_eq!(round.ancestor, BlockIdAndNumber::new(hash(60), 6))
        }
        other => panic!("{:?}", other),
    }
    let task = task.step(SyncEvent::Synced(status(80, 8, 20)), &mut peers);
    assert!(matches!(task.action(), SyncAction::Finish(end) if end == status(80, 8, 20)));
    let task = task.step(SyncEvent::Announced, &mut peers);
    assert!(matches!(task.action(), SyncAction::Finish(end) if end == status(80, 8, 20)));
}

#[test]
fn a_sync_announces_once_and_finishes_at_the_target() {
    let mut peers = selector(vec![info(1, 80, 8, 20)]);
    let mut task = started(&mut peers);
    let ancestor = BlockIdAndNumber::new(hash(2), 2);
    task = task.step(SyncEvent::Synced(status(90, 9, 25)), &mut peers);
    assert!(matches!(task.action(), SyncAction::FindAncestor(_)));
    task = task.step(SyncEvent::AncestorFound(ancestor), &mut peers);
    task = task.step(SyncEvent::InfoLoaded(Some(block_info(2, 2))), &mut peers);
    assert!(matches!(task.action(), SyncAction::Announce(_)));
    task = task.step(SyncEvent::Announced, &mut peers);
    for height in 5u64..=8 {
        let events = vec![
            SyncEvent::Announced,
            SyncEvent::AncestorFound(ancestor),
            SyncEvent::InfoLoaded(Some(block_info(2, 2))),
            SyncEvent::PeersFetched(vec![]),
            SyncEvent::TargetFound(target(80, 8, 20, vec![1])),
            SyncEvent::Synced(status(height as u128 * 10, height, 20)),
        ];
        for event in events {
            assert!(!matches!(task.action(), SyncAction::Finish(_)));
            task = task.step(event, &mut peers);
            assert!(!matches!(task.action(), SyncAction::Announce(_)));
        }
    }
    assert!(matches!(task.action(), SyncAction::Finish(end) if end == status(80, 8, 20)));
}

#[test]
fn a_sync_fails_without_the_ancestors_info() {
    let mut peers = selector(vec![info(1, 80, 8, 20)]);
    let task = started(&mut peers);
    let task = task.step(SyncEvent::Announced, &mut peers);
    assert!(matches!(task.action(), SyncAction::FindAncestor(_)));
    let ancestor = BlockIdAndNumber::new(hash(2), 2);
    let task = task.step(SyncEvent::AncestorFound(ancestor), &mut peers);
    let task = task.step(SyncEvent::InfoLoaded(None), &mut peers);
    assert!(matches!(
        task.action(),
        SyncAction::Fail(error) if error == SyncError::InfoNotFound(hash(2))
    ));
}

#[test]
fn a_round_is_reported() {
    let peers = selector(vec![info(1, 80, 8, 20), info(2, 80, 8, 20)]);
    let report = RoundReport::new(3, 8, 52, &peers);
    assert_eq!(report.strategy, PeerStrategy::Best);
    assert_eq!(report.peer_count, 2);
    assert_eq!(report.total_num, 5);
    assert_eq!(report.avg_time, 10);
    assert_eq!(report.metrics(), (5, 52));
    let idle = RoundReport::new(8, 3, 52, &peers);
    assert_eq!(idle.total_num, 0);
    assert_eq!(idle.avg_time, 0);
    let long = RoundReport::new(0, u64::MAX, 1 << 64, &peers);
    assert_eq!(long.metrics(), (-1, 0));
}

#[test]
fn fatal_answers_cost_the_peer() {
    let fatal = [
        RpcErrorCode::Forbidden,
        RpcErrorCode::MethodNotFound,
        RpcErrorCode::ServerUnavailable,
        RpcErrorCode::Unknown,
        RpcErrorCode::InternalError,
    ];
    for code in fatal {
        let mut peers = selector(vec![info(1, 80, 8, 20), info(2, 80, 8, 20)]);
        assert_eq!(handle_task_error(&mut peers, Some(id(1)), Some(code)), Some(1));
        assert_eq!(peers.peers(), vec![id(2)]);
    }
}

#[test]
fn other_errors_cost_nothing() {
    let mut peers = selector(vec![info(1, 80, 8, 20)]);
    assert_eq!(handle_task_error(&mut peers, Some(id(1)), Some(RpcErrorCode::Other)), None);
    assert_eq!(handle_task_error(&mut peers, Some(id(1)), None), None);
    assert_eq!(handle_task_error(&mut peers, None, Some(RpcErrorCode::Forbidden)), None);
    assert_eq!(peers.len(), 1);
}
