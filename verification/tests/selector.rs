use peer_sync::peer::PeerDetail;
use peer_sync::score::ScoreCounter;
use peer_sync::selector::{total_reputation, PeerSelector};
use peer_sync::strategy::PeerStrategy;
use peer_sync::types::{
    AccumulatorInfo, BlockHeader, BlockInfo, ChainInfo, ChainStatus, HashValue, PeerId, PeerInfo,
    U256,
};

fn id(n: u128) -> PeerId {
    PeerId { hi: 0, mid: 0, lo: n }
}

fn hash(n: u128) -> HashValue {
    HashValue { hi: 0, lo: n }
}

fn difficulty(n: u128) -> U256 {
    U256 { hi: 0, lo: n }
}

fn info_with(n: u128, total_difficulty: U256) -> PeerInfo {
    let accumulator = AccumulatorInfo { accumulator_root: hash(0), num_leaves: 0, num_nodes: 0 };
    PeerInfo {
        peer_id: id(n),
        chain_info: ChainInfo {
            status: ChainStatus {
                head: BlockHeader { id: hash(1000 + total_difficulty.lo), number: 7 },
                info: BlockInfo {
                    block_id: hash(1000 + total_difficulty.lo),
                    total_difficulty,
                    txn_accumulator_info: accumulator,
                    block_accumulator_info: accumulator,
                },
            },
        },
    }
}

fn info(n: u128, d: u128) -> PeerInfo {
    info_with(n, difficulty(d))
}

fn ids_of(peers: Vec<PeerInfo>) -> Vec<u128> {
    peers.iter().map(|peer| peer.peer_id().lo).collect()
}

fn numbers(peers: Vec<PeerId>) -> Vec<u128> {
    peers.iter().map(|peer| peer.lo).collect()
}

#[test]
fn new_gives_each_peer_a_score_of_one() {
    let selector = PeerSelector::new(vec![info(1, 5), info(2, 6)], PeerStrategy::Best);
    assert_eq!(selector.scores(), vec![(id(1), 1), (id(2), 1)]);
    assert_eq!(selector.total_score(), 2);
    assert_eq!(selector.strategy(), PeerStrategy::Best);
    assert_eq!(selector.len(), 2);
    assert!(!selector.is_empty());
}

#[test]
fn reputations_count_by_their_last_entry() {
    let selector = PeerSelector::new_with_reputation(
        vec![(id(1), 5), (id(3), 9), (id(1), 7)],
        vec![info(1, 5), info(2, 6)],
        PeerStrategy::Random,
    );
    assert_eq!(selector.scores(), vec![(id(1), 7), (id(2), 1)]);
    assert_eq!(selector.total_score(), 8);
}

#[test]
fn the_strategy_can_be_switched() {
    let mut selector = PeerSelector::new(vec![info(1, 5)], PeerStrategy::default());
    assert_eq!(selector.strategy(), PeerStrategy::WeightedRandom);
    selector.switch_strategy(PeerStrategy::Avg);
    assert_eq!(selector.strategy(), PeerStrategy::Avg);
}

#[test]
fn peers_are_found_by_identity() {
    let selector = PeerSelector::new(vec![info(1, 5), info(2, 6)], PeerStrategy::Best);
    assert_eq!(selector.peer_info(&id(2)), Some(info(2, 6)));
    assert_eq!(selector.peer_info(&id(3)), None);
    assert!(selector.peer_exist(&id(1)));
    assert!(!selector.peer_exist(&id(3)));
    assert_eq!(numbers(selector.peers()), vec![1, 2]);
    assert_eq!(selector.first_peer(), Some(info(1, 5)));
}

#[test]
fn bests_are_the_most_difficult_the_last_first() {
    let selector = PeerSelector::new(
        vec![info(1, 9), info(2, 5), info(3, 9), info(4, 8), info(5, 9)],
        PeerStrategy::Best,
    );
    assert_eq!(selector.bests(difficulty(8)).map(ids_of), Some(vec![5, 3, 1]));
    assert_eq!(selector.bests(difficulty(9)), None);
}

#[test]
fn bests_compare_the_high_word_first() {
    let selector = PeerSelector::new(
        vec![
            info_with(1, U256 { hi: 1, lo: 0 }),
            info_with(2, U256 { hi: 0, lo: u128::MAX }),
            info_with(3, U256 { hi: 1, lo: 1 }),
        ],
        PeerStrategy::Best,
    );
    assert_eq!(selector.bests(U256::zero()).map(ids_of), Some(vec![3]));
    assert_eq!(
        selector.betters(U256 { hi: 0, lo: u128::MAX }).map(ids_of),
        Some(vec![1, 3])
    );
}

#[test]
fn betters_keep_their_order() {
    let selector = PeerSelector::new(
        vec![info(1, 9), info(2, 5), info(3, 7), info(4, 6)],
        PeerStrategy::Best,
    );
    assert_eq!(selector.betters(difficulty(5)).map(ids_of), Some(vec![1, 3, 4]));
    assert_eq!(selector.betters(difficulty(9)), None);
}

#[test]
fn nothing_comes_of_no_peers() {
    let mut selector = PeerSelector::new(vec![], PeerStrategy::Best);
    assert_eq!(selector.bests(U256::zero()), None);
    assert_eq!(selector.betters(U256::zero()), None);
    assert_eq!(selector.best(), None);
    assert_eq!(selector.select_peer(), None);
    assert_eq!(selector.effective_strategy(), None);
    assert_eq!(selector.random(), None);
    assert_eq!(selector.random_peer(), None);
    assert_eq!(selector.weighted_random(), None);
    assert_eq!(selector.top_score(), None);
    assert_eq!(selector.avg_score(), None);
    assert_eq!(selector.first_peer(), None);
    assert_eq!(selector.top(3), vec![]);
    assert!(selector.is_empty());
}

#[test]
fn top_orders_by_difficulty() {
    let mut selector = PeerSelector::new(
        vec![info(1, 5), info(2, 9), info(3, 5), info(4, 7)],
        PeerStrategy::Best,
    );
    assert_eq!(numbers(selector.top(3)), vec![2, 4, 3]);
    assert_eq!(numbers(selector.peers()), vec![2, 4, 3, 1]);
    assert_eq!(numbers(selector.top(10)).len(), 4);
}

#[test]
fn scores_change_up_and_down() {
    let mut selector = PeerSelector::new(vec![info(1, 5), info(2, 6)], PeerStrategy::Best);
    selector.peer_score(&id(1), 10);
    assert_eq!(selector.scores(), vec![(id(1), 11), (id(2), 1)]);
    assert_eq!(selector.total_score(), 12);
    selector.peer_score(&id(1), -4);
    assert_eq!(selector.scores(), vec![(id(1), 7), (id(2), 1)]);
    assert_eq!(selector.total_score(), 8);
}

#[test]
fn a_score_change_counts_for_the_total_without_the_peer() {
    let mut selector = PeerSelector::new(vec![info(1, 5)], PeerStrategy::Best);
    selector.peer_score(&id(2), 10);
    assert_eq!(selector.scores(), vec![(id(1), 1)]);
    assert_eq!(selector.total_score(), 11);
}

#[test]
fn scores_wrap_around() {
    let mut selector = PeerSelector::new(vec![info(1, 5)], PeerStrategy::Best);
    selector.peer_score(&id(1), -2);
    assert_eq!(selector.scores(), vec![(id(1), u64::MAX)]);
    assert_eq!(selector.total_score(), u64::MAX);
    selector.peer_score(&id(1), 2);
    assert_eq!(selector.scores(), vec![(id(1), 1)]);
}

#[test]
fn the_average_score_is_rounded_down() {
    let mut counter = ScoreCounter::new(10);
    assert_eq!(counter.avg(), 10);
    counter.inc_by(5);
    assert_eq!(counter.score(), 15);
    assert_eq!(counter.avg(), 7);
    assert_eq!(ScoreCounter { score: 3, times: 0 }.avg(), 0);
    assert_eq!(ScoreCounter::default().score(), 1);
}

#[test]
fn a_known_peer_is_updated_in_place() {
    let mut selector = PeerSelector::new_with_reputation(
        vec![(id(1), 30)],
        vec![info(1, 5), info(2, 6)],
        PeerStrategy::Best,
    );
    selector.add_or_update_peer(info(1, 50));
    assert_eq!(selector.peer_info(&id(1)), Some(info(1, 50)));
    assert_eq!(selector.scores(), vec![(id(1), 30), (id(2), 1)]);
    assert_eq!(selector.total_score(), 31);
}

#[test]
fn a_new_peer_goes_last_and_not_into_the_total() {
    let mut selector = PeerSelector::new(vec![info(1, 5)], PeerStrategy::Best);
    selector.add_or_update_peer(info(2, 6));
    selector.add_or_update_peer(info(2, 6));
    assert_eq!(selector.scores(), vec![(id(1), 1), (id(2), 1)]);
    assert_eq!(selector.total_score(), 1);
    assert_eq!(selector.remove_peer(&id(2)), 1);
    assert_eq!(numbers(selector.peers()), vec![1]);
}

#[test]
fn new_peers_can_come_in_either_order() {
    let mut one = PeerSelector::new(vec![info(1, 5), info(2, 6)], PeerStrategy::Best);
    let mut other = PeerSelector::new(vec![info(1, 5), info(2, 6)], PeerStrategy::Best);
    one.add_or_update_peer(info(2, 60));
    one.add_or_update_peer(info(3, 7));
    other.add_or_update_peer(info(3, 7));
    other.add_or_update_peer(info(2, 60));
    assert_eq!(one.scores(), other.scores());
    assert_eq!(one.peer_info(&id(2)), other.peer_info(&id(2)));
    assert_eq!(one.total_score(), other.total_score());
    one.add_or_update_peer(info(4, 8));
    one.add_or_update_peer(info(5, 9));
    other.add_or_update_peer(info(5, 9));
    other.add_or_update_peer(info(4, 8));
    assert_eq!(numbers(one.peers()), vec![1, 2, 3, 4, 5]);
    assert_eq!(numbers(other.peers()), vec![1, 2, 3, 5, 4]);
    assert_eq!(one.total_score(), other.total_score());
}

#[test]
fn the_strategy_has_no_say_in_peers_and_scores() {
    let mut one = PeerSelector::new(vec![info(1, 5), info(2, 6)], PeerStrategy::Best);
    let mut other = PeerSelector::new(vec![info(1, 5), info(2, 6)], PeerStrategy::Avg);
    for selector in [&mut one, &mut other] {
        selector.add_or_update_peer(info(3, 7));
        selector.switch_strategy(PeerStrategy::Random);
        selector.peer_score(&id(3), 4);
        selector.remove_peer(&id(1));
    }
    other.switch_strategy(PeerStrategy::Avg);
    assert_eq!(one.scores(), vec![(id(2), 1), (id(3), 5)]);
    assert_eq!(one.scores(), other.scores());
    assert_eq!(one.total_score(), other.total_score());
    assert_eq!(other.strategy(), PeerStrategy::Avg);
}

#[test]
fn retain_keeps_the_given_peers_and_their_scores() {
    let mut selector = PeerSelector::new_with_reputation(
        vec![(id(1), 3), (id(2), 4), (id(3), 5)],
        vec![info(1, 5), info(2, 6), info(3, 7)],
        PeerStrategy::Best,
    );
    selector.retain(&[id(3), id(1), id(9)]);
    assert_eq!(selector.scores(), vec![(id(1), 3), (id(3), 5)]);
    assert_eq!(selector.total_score(), 8);
    selector.retain(&[id(3), id(1), id(9)]);
    assert_eq!(selector.scores(), vec![(id(1), 3), (id(3), 5)]);
    selector.retain(&[]);
    assert!(selector.is_empty());
    assert_eq!(selector.total_score(), 0);
}

#[test]
fn retain_saturates_the_total() {
    let mut selector = PeerSelector::new(vec![info(1, 5), info(2, 6)], PeerStrategy::Best);
    selector.peer_score(&id(1), -2);
    selector.retain(&[id(1), id(2)]);
    assert_eq!(selector.total_score(), u64::MAX);
}

#[test]
fn remove_peer_takes_its_score_off() {
    let mut selector = PeerSelector::new_with_reputation(
        vec![(id(1), 3), (id(2), 4)],
        vec![info(1, 5), info(2, 6)],
        PeerStrategy::Best,
    );
    assert_eq!(selector.remove_peer(&id(1)), 1);
    assert_eq!(selector.total_score(), 4);
    assert_eq!(selector.remove_peer(&id(1)), 1);
    assert_eq!(selector.total_score(), 4);
    assert!(!selector.peer_exist(&id(1)));
}

#[test]
fn remove_peer_stops_the_total_at_zero() {
    let mut selector = PeerSelector::new(vec![], PeerStrategy::Best);
    selector.add_or_update_peer(info(1, 5));
    assert_eq!(selector.total_score(), 0);
    assert_eq!(selector.remove_peer(&id(1)), 0);
    assert_eq!(selector.total_score(), 0);
}

#[test]
fn peers_by_filter_keeps_those_that_pass() {
    let selector = PeerSelector::new(
        vec![info(1, 5), info(2, 6), info(3, 7)],
        PeerStrategy::Best,
    );
    let chosen = selector.peers_by_filter(|peer| peer.peer_id().lo != 2);
    assert_eq!(numbers(chosen), vec![1, 3]);
}

#[test]
fn the_first_of_the_highest_scores_is_on_top() {
    let selector = PeerSelector::new_with_reputation(
        vec![(id(1), 3), (id(2), 9), (id(3), 9)],
        vec![info(1, 5), info(2, 6), info(3, 7)],
        PeerStrategy::Best,
    );
    assert_eq!(selector.top_score(), Some(id(2)));
}

#[test]
fn the_average_can_favor_another_peer() {
    let mut selector = PeerSelector::new_with_reputation(
        vec![(id(1), 300), (id(2), 250)],
        vec![info(1, 5), info(2, 6)],
        PeerStrategy::Avg,
    );
    selector.peer_score(&id(1), 1);
    assert_eq!(selector.top_score(), Some(id(1)));
    assert_eq!(selector.avg_score(), Some(id(2)));
    assert_eq!(selector.effective_strategy(), Some(PeerStrategy::Avg));
    assert_eq!(selector.select_peer(), Some(id(2)));
    selector.switch_strategy(PeerStrategy::Best);
    assert_eq!(selector.select_peer(), Some(id(1)));
}

#[test]
fn low_scores_make_the_choice_random() {
    let selector = PeerSelector::new_with_reputation(
        vec![(id(1), 199), (id(2), 200)],
        vec![info(1, 5), info(2, 6)],
        PeerStrategy::Best,
    );
    assert_eq!(selector.effective_strategy(), Some(PeerStrategy::Random));
    let mut seen: Vec<u128> = vec![];
    for _ in 0..200 {
        let chosen = selector.select_peer().unwrap().lo;
        if !seen.contains(&chosen) {
            seen.push(chosen);
        }
    }
    seen.sort();
    assert_eq!(seen, vec![1, 2]);
}

#[test]
fn weighted_pick_lays_scores_end_to_end() {
    let selector = PeerSelector::new_with_reputation(
        vec![(id(1), 3), (id(2), 0), (id(3), 4)],
        vec![info(1, 5), info(2, 6), info(3, 7)],
        PeerStrategy::WeightedRandom,
    );
    assert_eq!(selector.weighted_pick(0), Some(id(1)));
    assert_eq!(selector.weighted_pick(2), Some(id(1)));
    assert_eq!(selector.weighted_pick(3), Some(id(3)));
    assert_eq!(selector.weighted_pick(6), Some(id(3)));
    assert_eq!(selector.weighted_pick(7), None);
}

#[test]
fn a_weighted_choice_never_falls_to_a_score_of_zero() {
    let selector = PeerSelector::new_with_reputation(
        vec![(id(1), 400), (id(2), 0), (id(3), 400)],
        vec![info(1, 5), info(2, 6), info(3, 7)],
        PeerStrategy::WeightedRandom,
    );
    assert_eq!(selector.effective_strategy(), Some(PeerStrategy::WeightedRandom));
    let mut seen: Vec<u128> = vec![];
    for _ in 0..200 {
        let chosen = selector.select_peer().unwrap().lo;
        if !seen.contains(&chosen) {
            seen.push(chosen);
        }
    }
    seen.sort();
    assert_eq!(seen, vec![1, 3]);
}

#[test]
fn a_weighted_choice_needs_a_number_to_draw() {
    let mut selector = PeerSelector::new(vec![info(1, 5)], PeerStrategy::WeightedRandom);
    assert!(selector.can_weigh());
    selector.add_or_update_peer(info(2, 6));
    assert_eq!(selector.total_score(), 1);
    assert!(!selector.can_weigh());
    assert!(selector.can_select());
    selector.peer_score(&id(2), 1);
    assert!(selector.can_weigh());
    assert_eq!(selector.weighted_random(), Some(id(2)));
}

#[test]
fn a_weighted_choice_needs_sums_in_range() {
    let mut selector = PeerSelector::new_with_reputation(
        vec![(id(1), 500), (id(2), 500)],
        vec![info(1, 5), info(2, 6)],
        PeerStrategy::WeightedRandom,
    );
    assert!(selector.can_select());
    selector.peer_score(&id(2), -501);
    selector.peer_score(&id(3), 1);
    assert_eq!(selector.total_score(), 500);
    assert!(selector.can_weigh());
    selector.peer_score(&id(3), 1000);
    assert!(!selector.can_weigh());
    assert!(!selector.can_select());
}

#[test]
fn reputations_add_up_or_overflow() {
    let peers = vec![info(1, 5), info(2, 6)];
    assert_eq!(total_reputation(&vec![(id(1), 5)], &peers), Some(6));
    assert_eq!(total_reputation(&vec![(id(1), u64::MAX)], &peers), None);
}

#[test]
fn the_only_peer_is_the_weighted_choice() {
    let selector = PeerSelector::new(vec![info(4, 5)], PeerStrategy::WeightedRandom);
    assert_eq!(selector.weighted_random(), Some(id(4)));
}

#[test]
fn best_is_any_of_the_bests() {
    let selector = PeerSelector::new(
        vec![info(1, 9), info(2, 5), info(3, 9)],
        PeerStrategy::Best,
    );
    let mut seen: Vec<u128> = vec![];
    for _ in 0..200 {
        let chosen = selector.best().unwrap().peer_id().lo;
        if !seen.contains(&chosen) {
            seen.push(chosen);
        }
    }
    seen.sort();
    assert_eq!(seen, vec![1, 3]);
    let without_work = PeerSelector::new(vec![info(1, 0)], PeerStrategy::Best);
    assert_eq!(without_work.best(), None);
}

#[test]
fn random_peer_is_any_of_the_peers() {
    let selector = PeerSelector::new(vec![info(1, 9), info(2, 5)], PeerStrategy::Best);
    let mut seen: Vec<u128> = vec![];
    for _ in 0..200 {
        let chosen = selector.random_peer().unwrap().peer_id().lo;
        if !seen.contains(&chosen) {
            seen.push(chosen);
        }
    }
    seen.sort();
    assert_eq!(seen, vec![1, 2]);
}

#[test]
fn a_selector_describes_itself() {
    let selector = PeerSelector::new_with_reputation(
        vec![(id(1), 1200)],
        vec![info(1, 5), info(2, 6)],
        PeerStrategy::WeightedRandom,
    );
    assert_eq!(
        selector.to_text(),
        "peer len : 2, strategy : WeightedRandom, total score : 1201"
    );
}

#[test]
fn details_tell_what_they_are_made_of() {
    let detail = PeerDetail::from((info(1, 5), 12));
    assert_eq!(detail.peer_id(), id(1));
    assert_eq!(*detail.peer_info(), info(1, 5));
    assert_eq!(detail.latest_header().number, 7);
    assert_eq!(detail.score(), 12);
    assert_eq!(detail.avg_score(), 12);
    assert_eq!(PeerDetail::from(info(1, 5)).score(), 1);
}

#[test]
fn strategies_have_names() {
    let all = [
        (PeerStrategy::Random, "random"),
        (PeerStrategy::WeightedRandom, "weighted"),
        (PeerStrategy::Best, "top"),
        (PeerStrategy::Avg, "avg"),
    ];
    for (strategy, name) in all {
        assert_eq!(strategy.to_text(), name);
        assert_eq!(PeerStrategy::from_str(name), Ok(strategy));
        assert_eq!(name.parse::<PeerStrategy>(), Ok(strategy));
    }
    assert_eq!(
        PeerStrategy::from_str("Best"),
        Err("Unknown peer strategy: Best".to_string())
    );
}
