//! What the operations on the known peers do, entry by entry.

use crate::lemmas::{
    lemma_filter_agrees, lemma_filter_has, lemma_filter_place, lemma_filter_reverse,
};
use crate::order::{descending_order, has_rank, of_rank, stable_sort, Ranked};
use crate::peer::PeerDetail;
use crate::roster::{
    above, among, any_choice, best_infos, better_infos, by_avg_score, by_score, falls_to,
    first_highest, highest, ids, infos, lemma_highest, lemma_position_at, marked, rated,
    reputation_of, retained, score_sum, scores, sums_fit, top_choice, weighted_choice,
};
use crate::score::ScoreCounter;
use crate::selector::{
    selectable, selected, weighable, weighted_random_choice, PeerSelectorView,
};
use crate::strategy::{reads_as, PeerStrategy};
use crate::text::decimal;
use crate::types::{
    BlockHeader, ChainStatus, PeerId, PeerInfo, SyncTarget, SyncTargetView, U256,
};
use vstd::prelude::*;
use vstd::std_specs::convert::FromSpec;

verus! {

/// A difficulty is the number that its two words write, and numbers compare by the more significant
/// word and then by the other one.
pub proof fn law_difficulties_are_numbers(a: U256, b: U256)
    ensures
        a@ == a.hi * 0x1_0000_0000_0000_0000_0000_0000_0000_0000 + a.lo,
        a@ > b@ <==> a.hi > b.hi || (a.hi == b.hi && a.lo > b.lo),
        a@ == b@ <==> a == b,
{
}

/// A peer is known by what it says of its chain, and sorts by the total difficulty of it.
pub proof fn law_peers_sort_by_difficulty(peer: PeerInfo, detail: PeerDetail)
    ensures
        peer.status() == peer.chain_info.status,
        peer.difficulty() == peer.chain_info.status.info.total_difficulty@,
        peer.rank() == peer.chain_info.status.info.total_difficulty@,
        detail.rank() == detail.peer_info.chain_info.status.info.total_difficulty@,
{
}

/// A chain makes a target of its newest block, and the view of a target says what the target does.
pub proof fn law_targets_are_newest_blocks(
    header: BlockHeader,
    status: ChainStatus,
    peers: Seq<PeerId>,
    target: SyncTarget,
)
    ensures
        header.spec_id_and_number().id == header.id,
        header.spec_id_and_number().number == header.number,
        ({
            let made = SyncTargetView::of_status(status, peers);
            &&& made.target_id.id == status.head.id
            &&& made.target_id.number == status.head.number
            &&& made.block_info == status.info
            &&& made.peers == peers
        }),
        target@.target_id == target.target_id,
        target@.block_info == target.block_info,
        target@.peers == target.peers@,
{
}

/// A change moves the score by as much as it says, around the ends of the `u64` range, and is
/// counted.
pub proof fn law_score_moves_by_change(counter: ScoreCounter, change: i64)
    ensures
        ({
            let after = counter.changed_by(change);
            let sum = counter.score + change;
            &&& 0 <= sum <= u64::MAX ==> after.score == sum
            &&& sum < 0 ==> after.score == sum + 0x1_0000_0000_0000_0000
            &&& sum > u64::MAX ==> after.score == sum - 0x1_0000_0000_0000_0000
            &&& counter.times < u64::MAX ==> after.times == counter.times + 1
            &&& counter.times == u64::MAX ==> after.times == 0
        }),
{
}

/// The average goes into the score as often as it was set or changed, and no greater number does.
pub proof fn law_average_is_rounded_down(counter: ScoreCounter)
    ensures
        counter.times > 0 ==> counter.spec_avg() * counter.times <= counter.score < (
        counter.spec_avg() + 1) * counter.times,
        counter.times == 0 ==> counter.spec_avg() == 0,
{
    if counter.times > 0 {
        let x = counter.score as int;
        let d = counter.times as int;
        let q = x / d;
        vstd::arithmetic::div_mod::lemma_fundamental_div_mod(x, d);
        vstd::arithmetic::div_mod::lemma_mod_bound(x, d);
        assert(q * d == d * q) by (nonlinear_arith);
        assert((q + 1) * d == q * d + d) by (nonlinear_arith);
        assert(counter.spec_avg() == q);
    }
}

/// A peer is kept with the score that it comes with, or with a score of one, set once.
pub proof fn law_peers_start_with_their_scores(peer: PeerInfo, score: u64)
    ensures
        ({
            let plain = <PeerDetail as FromSpec<PeerInfo>>::from_spec(peer);
            let scored = <PeerDetail as FromSpec<(PeerInfo, u64)>>::from_spec((peer, score));
            &&& plain.peer_info == peer
            &&& plain.score_counter.score == 1
            &&& plain.score_counter.times == 1
            &&& scored.peer_info == peer
            &&& scored.score_counter.score == score
            &&& scored.score_counter.times == 1
        }),
{
}

/// Adds up the scores of the entries.
pub open spec fn total_of(s: Seq<PeerDetail>) -> int {
    s.fold_left(0int, |sum: int, detail: PeerDetail| sum + detail.score_counter.score)
}

/// The sum of the scores is what adding them up one after the other gives.
pub proof fn law_sum_adds_up_scores(s: Seq<PeerDetail>)
    ensures
        score_sum(s) == total_of(s),
    decreases s.len(),
{
    reveal(Seq::fold_left);
    if s.len() > 0 {
        law_sum_adds_up_scores(s.drop_last());
    }
}

/// A new peer has the score that the last entry of the list about it gives.
pub proof fn law_last_reputation_counts(
    reputations: Seq<(PeerId, u64)>,
    peers: Seq<PeerInfo>,
    i: int,
    j: int,
)
    requires
        0 <= i < peers.len(),
        0 <= j < reputations.len(),
        reputations[j].0 == peers[i].peer_id,
        forall|k: int| j < k < reputations.len() ==> (#[trigger] reputations[k]).0
            != peers[i].peer_id,
    ensures
        rated(reputations, peers).len() == peers.len(),
        rated(reputations, peers)[i].peer_info == peers[i],
        rated(reputations, peers)[i].score_counter.score == reputations[j].1,
        rated(reputations, peers)[i].score_counter.times == 1,
{
    lemma_reputation(reputations, peers[i].peer_id, j);
}

/// A new peer that the list does not speak of has a score of one.
pub proof fn law_unlisted_peers_have_score_one(
    reputations: Seq<(PeerId, u64)>,
    peers: Seq<PeerInfo>,
    i: int,
)
    requires
        0 <= i < peers.len(),
        forall|k: int|
            0 <= k < reputations.len() ==> (#[trigger] reputations[k]).0 != peers[i].peer_id,
    ensures
        rated(reputations, peers).len() == peers.len(),
        rated(reputations, peers)[i].peer_info == peers[i],
        rated(reputations, peers)[i].score_counter.score == 1,
        rated(reputations, peers)[i].score_counter.times == 1,
{
    lemma_reputation(reputations, peers[i].peer_id, -1);
}

/// The last entry about a peer is at `j`, or nowhere where `j` is negative.
proof fn lemma_reputation(reputations: Seq<(PeerId, u64)>, id: PeerId, j: int)
    requires
        j < reputations.len(),
        j >= 0 ==> reputations[j].0 == id,
        forall|k: int|
            0 <= k < reputations.len() && k > j ==> (#[trigger] reputations[k]).0 != id,
    ensures
        reputation_of(reputations, id) == if j >= 0 {
            reputations[j].1
        } else {
            1
        },
    decreases reputations.len(),
{
    if reputations.len() > 0 && j < reputations.len() - 1 {
        let shorter = reputations.drop_last();
        assert(reputations[reputations.len() - 1].0 != id);
        assert forall|k: int| 0 <= k < shorter.len() && k > j implies (#[trigger] shorter[k]).0
            != id by {
            assert(shorter[k] == reputations[k]);
        }
        lemma_reputation(shorter, id, j);
    }
}

/// The listings speak of the peers one by one, in their order.
pub proof fn law_listings_follow_entries(s: Seq<PeerDetail>, i: int)
    requires
        0 <= i < s.len(),
    ensures
        ids(s).len() == s.len(),
        infos(s).len() == s.len(),
        scores(s).len() == s.len(),
        ids(s)[i] == s[i].peer_info.peer_id,
        infos(s)[i] == s[i].peer_info,
        scores(s)[i].0 == s[i].peer_info.peer_id,
        scores(s)[i].1 == s[i].score_counter.score,
{
}

/// Taking over what a known peer offers replaces just that in the first entry about the peer. Its
/// score and the count of changes stay, so that its average score does, and so do all other
/// entries, the running total and the strategy.
pub proof fn law_update_keeps_score_counter(view: PeerSelectorView, info: PeerInfo, i: int)
    requires
        0 <= i < view.details.len(),
        view.details[i].peer_info.peer_id == info.peer_id,
        forall|j: int|
            0 <= j < i ==> (#[trigger] view.details[j]).peer_info.peer_id != info.peer_id,
    ensures
        ({
            let after = view.with_peer(info);
            &&& after.details.len() == view.details.len()
            &&& after.details[i].peer_info == info
            &&& after.details[i].score_counter.score == view.details[i].score_counter.score
            &&& after.details[i].score_counter.times == view.details[i].score_counter.times
            &&& after.details[i].score_counter.spec_avg()
                == view.details[i].score_counter.spec_avg()
            &&& forall|j: int|
                0 <= j < view.details.len() && j != i ==> #[trigger] after.details[j]
                    == view.details[j]
            &&& after.total_score == view.total_score
            &&& after.strategy == view.strategy
        }),
{
    lemma_position_at(view.details, info.peer_id, i);
}

/// A peer that is not known yet is added at the end with a score of one. All that was known stays,
/// the running total as well.
pub proof fn law_new_peer_comes_last(view: PeerSelectorView, info: PeerInfo)
    requires
        forall|j: int|
            0 <= j < view.details.len() ==> (#[trigger] view.details[j]).peer_info.peer_id
                != info.peer_id,
    ensures
        ({
            let after = view.with_peer(info);
            let n = view.details.len() as int;
            &&& after.details.len() == n + 1
            &&& after.details[n].peer_info == info
            &&& after.details[n].score_counter.score == 1
            &&& after.details[n].score_counter.times == 1
            &&& forall|j: int|
                0 <= j < n ==> #[trigger] after.details[j] == view.details[j]
            &&& after.total_score == view.total_score
            &&& after.strategy == view.strategy
        }),
{
    lemma_position_at(view.details, info.peer_id, view.details.len() as int);
}

/// Forgetting a peer takes its first entry out and its score off the running total, down to zero at
/// most. The other entries close up.
pub proof fn law_forgotten_peer_takes_its_score(view: PeerSelectorView, id: PeerId, i: int)
    requires
        0 <= i < view.details.len(),
        view.details[i].peer_info.peer_id == id,
        forall|j: int| 0 <= j < i ==> (#[trigger] view.details[j]).peer_info.peer_id != id,
    ensures
        ({
            let after = view.without_peer(id);
            let score = view.details[i].score_counter.score;
            &&& after.details.len() == view.details.len() - 1
            &&& forall|j: int| 0 <= j < i ==> #[trigger] after.details[j] == view.details[j]
            &&& forall|j: int|
                i <= j < after.details.len() ==> #[trigger] after.details[j] == view.details[j + 1]
            &&& view.total_score >= score ==> after.total_score == view.total_score - score
            &&& view.total_score < score ==> after.total_score == 0
            &&& after.strategy == view.strategy
        }),
{
    lemma_position_at(view.details, id, i);
}

/// Forgetting a peer that is not known changes nothing.
pub proof fn law_unknown_peer_cannot_be_forgotten(view: PeerSelectorView, id: PeerId)
    requires
        forall|j: int|
            0 <= j < view.details.len() ==> (#[trigger] view.details[j]).peer_info.peer_id != id,
    ensures
        view.without_peer(id) == view,
{
    lemma_position_at(view.details, id, view.details.len() as int);
}

/// A score change is counted in each entry about the peer and moves its score and the running total
/// by as much, around the ends of the `u64` range. All else stays.
pub proof fn law_score_change_hits_its_peer(
    view: PeerSelectorView,
    id: PeerId,
    change: i64,
    i: int,
)
    requires
        0 <= i < view.details.len(),
    ensures
        ({
            let after = view.with_score_change(id, change);
            let before = view.details[i];
            let sum = before.score_counter.score + change;
            &&& after.details.len() == view.details.len()
            &&& after.details[i].peer_info == before.peer_info
            &&& before.peer_info.peer_id != id ==> after.details[i] == before
            &&& before.peer_info.peer_id == id ==> {
                &&& 0 <= sum <= u64::MAX ==> after.details[i].score_counter.score == sum
                &&& sum < 0 ==> after.details[i].score_counter.score == sum
                    + 0x1_0000_0000_0000_0000
                &&& sum > u64::MAX ==> after.details[i].score_counter.score == sum
                    - 0x1_0000_0000_0000_0000
                &&& before.score_counter.times < u64::MAX ==> after.details[i].score_counter.times
                    == before.score_counter.times + 1
                &&& before.score_counter.times == u64::MAX
                    ==> after.details[i].score_counter.times == 0
            }
        }),
{
    law_score_moves_by_change(view.details[i].score_counter, change);
}

/// A score change moves the running total, whether or not the peer is known.
pub proof fn law_score_change_moves_total(view: PeerSelectorView, id: PeerId, change: i64)
    ensures
        ({
            let after = view.with_score_change(id, change);
            let sum = view.total_score + change;
            &&& after.details.len() == view.details.len()
            &&& 0 <= sum <= u64::MAX ==> after.total_score == sum
            &&& sum < 0 ==> after.total_score == sum + 0x1_0000_0000_0000_0000
            &&& sum > u64::MAX ==> after.total_score == sum - 0x1_0000_0000_0000_0000
            &&& after.strategy == view.strategy
        }),
{
}

/// The entries about the given peers stay as they are and in their order, no other one does, and
/// the running total becomes the sum of their scores or the greatest `u64`.
pub proof fn law_given_peers_stay_in_order(view: PeerSelectorView, peers: Seq<PeerId>)
    ensures
        ({
            let s = view.details;
            let after = view.only_peers(peers);
            let given = |detail: PeerDetail| peers.contains(detail.peer_info.peer_id);
            &&& after.details.len() == s.filter(given).len()
            &&& forall|i: int|
                0 <= i < s.len() && given(#[trigger] s[i]) ==> {
                    &&& s.take(i).filter(given).len() < after.details.len()
                    &&& after.details[s.take(i).filter(given).len() as int] == s[i]
                }
            &&& forall|k: int|
                0 <= k < after.details.len() ==> given(#[trigger] after.details[k])
            &&& total_of(after.details) <= u64::MAX ==> after.total_score == total_of(after.details)
            &&& total_of(after.details) > u64::MAX ==> after.total_score == u64::MAX
            &&& after.strategy == view.strategy
        }),
{
    let s = view.details;
    let given = |detail: PeerDetail| peers.contains(detail.peer_info.peer_id);
    let t = retained(s, peers);
    lemma_filter_agrees(s, among(peers), given);
    law_sum_adds_up_scores(t);
    assert forall|i: int| 0 <= i < s.len() && given(#[trigger] s[i]) implies {
        &&& s.take(i).filter(given).len() < t.len()
        &&& t[s.take(i).filter(given).len() as int] == s[i]
    } by {
        lemma_filter_place(s, given, i);
    }
    assert forall|k: int| 0 <= k < t.len() implies given(#[trigger] t[k]) by {
        assert(t.contains(t[k]));
        lemma_filter_has(s, given, t[k]);
    }
}

/// The better peers are those whose chains have a greater total difficulty than the given one, in
/// their order, and there are better ones as soon as there is one.
pub proof fn law_betters_in_order(s: Seq<PeerDetail>, difficulty: nat)
    ensures
        ({
            let better = |detail: PeerDetail|
                detail.peer_info.chain_info.status.info.total_difficulty@ > difficulty;
            &&& better_infos(s, difficulty) is None <==> forall|i: int|
                0 <= i < s.len() ==> !better(#[trigger] s[i])
            &&& better_infos(s, difficulty) matches Some(betters) ==> {
                &&& betters.len() == s.filter(better).len()
                &&& forall|i: int|
                    0 <= i < s.len() && better(#[trigger] s[i]) ==> {
                        &&& s.take(i).filter(better).len() < betters.len()
                        &&& betters[s.take(i).filter(better).len() as int] == s[i].peer_info
                    }
                &&& forall|k: int|
                    0 <= k < betters.len() ==> (
                    #[trigger] betters[k]).chain_info.status.info.total_difficulty@ > difficulty
            }
        }),
{
    let better = |detail: PeerDetail|
        detail.peer_info.chain_info.status.info.total_difficulty@ > difficulty;
    lemma_filter_agrees(s, above(difficulty), better);
    let t = s.filter(better);
    assert forall|i: int| 0 <= i < s.len() && better(#[trigger] s[i]) implies {
        &&& s.take(i).filter(better).len() < t.len()
        &&& t[s.take(i).filter(better).len() as int] == s[i]
    } by {
        lemma_filter_place(s, better, i);
    }
    assert forall|k: int| 0 <= k < t.len() implies better(#[trigger] t[k]) && s.contains(t[k]) by {
        assert(t.contains(t[k]));
        lemma_filter_has(s, better, t[k]);
    }
    if t.len() > 0 {
        let i = choose|i: int| 0 <= i < s.len() && s[i] == t[0];
        assert(better(s[i]));
    }
}

/// The best peers are those whose chains no other chain exceeds in total difficulty, the last one
/// first. There are best ones if and only if a chain exceeds the given difficulty.
pub proof fn law_bests_last_first(s: Seq<PeerDetail>, min_difficulty: nat)
    ensures
        ({
            let unbeaten = |detail: PeerDetail|
                forall|j: int|
                    0 <= j < s.len() ==> (
                    #[trigger] s[j]).peer_info.chain_info.status.info.total_difficulty@
                        <= detail.peer_info.chain_info.status.info.total_difficulty@;
            &&& best_infos(s, min_difficulty) is None <==> forall|i: int|
                0 <= i < s.len() ==> (
                #[trigger] s[i]).peer_info.chain_info.status.info.total_difficulty@
                    <= min_difficulty
            &&& best_infos(s, min_difficulty) matches Some(bests) ==> {
                &&& bests.len() == s.filter(unbeaten).len()
                &&& forall|i: int|
                    0 <= i < s.len() && unbeaten(#[trigger] s[i]) ==> {
                        &&& s.take(i).filter(unbeaten).len() < bests.len()
                        &&& bests[bests.len() - 1 - s.take(i).filter(unbeaten).len()]
                            == s[i].peer_info
                    }
            }
        }),
{
    let unbeaten = |detail: PeerDetail|
        forall|j: int|
            0 <= j < s.len() ==> (
            #[trigger] s[j]).peer_info.chain_info.status.info.total_difficulty@
                <= detail.peer_info.chain_info.status.info.total_difficulty@;
    if s.len() > 0 {
        lemma_highest(s);
        let top = choose|i: int| 0 <= i < s.len() && (#[trigger] s[i]).rank() == highest(s);
        assert forall|i: int| 0 <= i < s.len() implies has_rank(highest(s))(#[trigger] s[i])
            == unbeaten(s[i]) by {
            assert(s[i].rank() <= highest(s));
            if unbeaten(s[i]) {
                assert(s[top].rank() <= s[i].rank());
            } else {
                assert forall|j: int| 0 <= j < s.len() implies (
                #[trigger] s[j]).peer_info.chain_info.status.info.total_difficulty@
                    <= highest(s) by {
                    assert(s[j].rank() <= highest(s));
                }
            }
        }
        lemma_filter_agrees(s, has_rank(highest(s)), unbeaten);
        let group = of_rank(s, highest(s));
        assert forall|i: int| 0 <= i < s.len() && unbeaten(#[trigger] s[i]) implies {
            &&& s.take(i).filter(unbeaten).len() < group.len()
            &&& group[s.take(i).filter(unbeaten).len() as int] == s[i]
        } by {
            lemma_filter_place(s, unbeaten, i);
        }
        if highest(s) <= min_difficulty {
            assert forall|i: int| 0 <= i < s.len() implies (
            #[trigger] s[i]).peer_info.chain_info.status.info.total_difficulty@
                <= min_difficulty by {
                assert(s[i].rank() <= highest(s));
            }
        } else {
            assert(s[top].peer_info.chain_info.status.info.total_difficulty@ > min_difficulty);
        }
    }
}

/// Ordered peers stand by descending total difficulty, and peers of one difficulty in the reverse
/// of their order before.
pub proof fn law_order_is_descending(
    before: Seq<PeerDetail>,
    after: Seq<PeerDetail>,
    difficulty: nat,
)
    requires
        descending_order(before, after),
    ensures
        ({
            let same = |detail: PeerDetail|
                detail.peer_info.chain_info.status.info.total_difficulty@ == difficulty;
            &&& after.filter(same) == before.filter(same).reverse()
            &&& forall|i: int, j: int|
                0 <= i <= j < after.len() ==> (
                #[trigger] after[i]).peer_info.chain_info.status.info.total_difficulty@ >= (
                #[trigger] after[j]).peer_info.chain_info.status.info.total_difficulty@
        }),
{
    let same = |detail: PeerDetail|
        detail.peer_info.chain_info.status.info.total_difficulty@ == difficulty;
    let t = after.reverse();
    lemma_filter_agrees(before, has_rank(difficulty), same);
    lemma_filter_agrees(t, has_rank(difficulty), same);
    assert(of_rank(t, difficulty) == of_rank(before, difficulty));
    lemma_filter_reverse(t, same);
    assert(t.reverse() =~= after);
    assert forall|i: int, j: int| 0 <= i <= j < after.len() implies (
    #[trigger] after[i]).peer_info.chain_info.status.info.total_difficulty@ >= (
    #[trigger] after[j]).peer_info.chain_info.status.info.total_difficulty@ by {
        let n = after.len() as int;
        assert(t[n - 1 - j].rank() <= t[n - 1 - i].rank());
    }
}

/// Sorted peers stand by ascending total difficulty, and peers of one difficulty in their order
/// before.
pub proof fn law_sort_is_ascending(
    before: Seq<PeerInfo>,
    after: Seq<PeerInfo>,
    difficulty: nat,
)
    requires
        stable_sort(before, after),
    ensures
        ({
            let same = |peer: PeerInfo|
                peer.chain_info.status.info.total_difficulty@ == difficulty;
            &&& after.filter(same) == before.filter(same)
            &&& forall|i: int, j: int|
                0 <= i <= j < after.len() ==> (
                #[trigger] after[i]).chain_info.status.info.total_difficulty@ <= (
                #[trigger] after[j]).chain_info.status.info.total_difficulty@
        }),
{
    let same = |peer: PeerInfo| peer.chain_info.status.info.total_difficulty@ == difficulty;
    lemma_filter_agrees(before, has_rank(difficulty), same);
    lemma_filter_agrees(after, has_rank(difficulty), same);
    assert(of_rank(after, difficulty) == of_rank(before, difficulty));
    assert forall|i: int, j: int| 0 <= i <= j < after.len() implies (
    #[trigger] after[i]).chain_info.status.info.total_difficulty@ <= (
    #[trigger] after[j]).chain_info.status.info.total_difficulty@ by {
        assert(after[i].rank() <= after[j].rank());
    }
}

/// The items at the marked places are taken, in their order.
pub proof fn law_marked_items_in_order<A>(s: Seq<A>, marks: Seq<bool>)
    requires
        s.len() == marks.len(),
    ensures
        marked(s, marks).len() == marks.filter(|mark: bool| mark).len(),
        forall|i: int|
            0 <= i < s.len() && #[trigger] marks[i] ==> {
                &&& marks.take(i).filter(|mark: bool| mark).len() < marked(s, marks).len()
                &&& marked(s, marks)[marks.take(i).filter(|mark: bool| mark).len() as int] == s[i]
            },
    decreases s.len(),
{
    let on = |mark: bool| mark;
    if s.len() == 0 {
        reveal(Seq::filter);
    } else {
        let n = s.len() - 1;
        let fewer = marks.drop_last();
        crate::lemmas::lemma_filter_snoc(marks, on);
        law_marked_items_in_order(s.drop_last(), fewer);
        assert forall|i: int| 0 <= i < s.len() && #[trigger] marks[i] implies {
            &&& marks.take(i).filter(on).len() < marked(s, marks).len()
            &&& marked(s, marks)[marks.take(i).filter(on).len() as int] == s[i]
        } by {
            if i < n {
                assert(fewer[i]);
                assert(fewer.take(i) =~= marks.take(i));
                assert(s.drop_last()[i] == s[i]);
            } else {
                assert(marks.take(n) =~= fewer);
            }
        }
    }
}

/// With known peers, the strategy is in effect from an average score of 200 on, which is where the
/// running total is at least 200 times the number of peers. Below, peers are picked at random.
pub proof fn law_strategy_needs_an_average_of_200(view: PeerSelectorView)
    ensures
        view.details.len() == 0 <==> view.effective_strategy() is None,
        view.details.len() > 0 && view.total_score < 200 * view.details.len()
            ==> view.effective_strategy() == Some(PeerStrategy::Random),
        view.details.len() > 0 && view.total_score >= 200 * view.details.len()
            ==> view.effective_strategy() == Some(view.strategy),
{
    if view.details.len() > 0 {
        let x = view.total_score as int;
        let d = view.details.len() as int;
        let q = x / d;
        vstd::arithmetic::div_mod::lemma_fundamental_div_mod(x, d);
        vstd::arithmetic::div_mod::lemma_mod_bound(x, d);
        if q < 200 {
            assert(d * q + d <= 200 * d) by (nonlinear_arith)
                requires
                    q < 200,
                    d > 0,
            ;
        } else {
            assert(d * q >= 200 * d) by (nonlinear_arith)
                requires
                    q >= 200,
                    d > 0,
            ;
        }
    }
}

/// A choice among all peers is one of them, and there is one as soon as there is a peer.
pub proof fn law_any_choice_is_a_peer(s: Seq<PeerDetail>, choice: Option<PeerId>)
    requires
        any_choice(s, choice),
    ensures
        choice is None <==> s.len() == 0,
        choice matches Some(id) ==> exists|i: int|
            0 <= i < s.len() && (#[trigger] s[i]).peer_info.peer_id == id,
{
    if let Some(id) = choice {
        let i = choose|i: int| 0 <= i < ids(s).len() && ids(s)[i] == id;
        assert(s[i].peer_info.peer_id == id);
    }
}

/// Each peer can come out of a choice among all of them.
pub proof fn law_any_peer_can_be_picked(s: Seq<PeerDetail>, i: int)
    requires
        0 <= i < s.len(),
    ensures
        any_choice(s, Some(s[i].peer_info.peer_id)),
{
    assert(ids(s)[i] == s[i].peer_info.peer_id);
}

/// A choice by score is the first peer whose score no other one exceeds.
pub proof fn law_top_score_is_unbeaten(s: Seq<PeerDetail>, choice: Option<PeerId>)
    requires
        top_choice(s, by_score(), choice),
    ensures
        choice is None <==> s.len() == 0,
        choice matches Some(id) ==> exists|i: int|
            {
                &&& 0 <= i < s.len()
                &&& (#[trigger] s[i]).peer_info.peer_id == id
                &&& forall|j: int|
                    0 <= j < s.len() ==> (#[trigger] s[j]).score_counter.score
                        <= s[i].score_counter.score
                &&& forall|j: int|
                    0 <= j < i ==> (#[trigger] s[j]).score_counter.score
                        < s[i].score_counter.score
            },
{
    if let Some(id) = choice {
        let i = choose|i: int|
            #[trigger] first_highest(s, by_score(), i) && id == s[i].peer_info.peer_id;
        assert forall|j: int| 0 <= j < s.len() implies (#[trigger] s[j]).score_counter.score
            <= s[i].score_counter.score by {
            assert(by_score()(s[j]) <= by_score()(s[i]));
        }
        assert forall|j: int| 0 <= j < i implies (#[trigger] s[j]).score_counter.score
            < s[i].score_counter.score by {
            assert(by_score()(s[j]) < by_score()(s[i]));
        }
        assert(s[i].peer_info.peer_id == id);
    }
}

/// A choice by average score is the first peer whose average score no other one exceeds.
pub proof fn law_top_average_is_unbeaten(s: Seq<PeerDetail>, choice: Option<PeerId>)
    requires
        top_choice(s, by_avg_score(), choice),
    ensures
        choice is None <==> s.len() == 0,
        choice matches Some(id) ==> exists|i: int|
            {
                &&& 0 <= i < s.len()
                &&& (#[trigger] s[i]).peer_info.peer_id == id
                &&& forall|j: int|
                    0 <= j < s.len() ==> (#[trigger] s[j]).score_counter.spec_avg()
                        <= s[i].score_counter.spec_avg()
                &&& forall|j: int|
                    0 <= j < i ==> (#[trigger] s[j]).score_counter.spec_avg()
                        < s[i].score_counter.spec_avg()
            },
{
    if let Some(id) = choice {
        let i = choose|i: int|
            #[trigger] first_highest(s, by_avg_score(), i) && id == s[i].peer_info.peer_id;
        assert forall|j: int| 0 <= j < s.len() implies (#[trigger] s[j]).score_counter.spec_avg()
            <= s[i].score_counter.spec_avg() by {
            assert(by_avg_score()(s[j]) <= by_avg_score()(s[i]));
        }
        assert forall|j: int| 0 <= j < i implies (#[trigger] s[j]).score_counter.spec_avg()
            < s[i].score_counter.spec_avg() by {
            assert(by_avg_score()(s[j]) < by_avg_score()(s[i]));
        }
        assert(s[i].peer_info.peer_id == id);
    }
}

/// A number picks the peer whose score it lies in where the scores are laid end to end from zero
/// on, and none if and only if it lies beyond all of them.
pub proof fn law_number_picks_by_score(s: Seq<PeerDetail>, x: int, choice: Option<PeerId>)
    requires
        0 <= x,
        weighted_choice(s, x, choice),
    ensures
        choice is None <==> total_of(s) <= x,
        choice matches Some(id) ==> exists|k: int|
            {
                &&& 0 <= k < s.len()
                &&& (#[trigger] s[k]).peer_info.peer_id == id
                &&& total_of(s.take(k)) <= x < total_of(s.take(k)) + s[k].score_counter.score
            },
{
    law_sum_adds_up_scores(s);
    if let Some(id) = choice {
        let k = choose|k: int| #[trigger] falls_to(s, x, k) && id == s[k].peer_info.peer_id;
        law_sum_adds_up_scores(s.take(k));
        crate::roster::lemma_score_sum_take(s, k);
        crate::roster::lemma_score_sum_monotone(s, k + 1, s.len() as int);
        assert(s.take(s.len() as int) =~= s);
        assert(s[k].peer_info.peer_id == id);
    }
}

/// A number that lies in a peer's score can pick that peer.
pub proof fn law_score_is_a_share_of_the_numbers(s: Seq<PeerDetail>, x: int, k: int)
    requires
        0 <= k < s.len(),
        total_of(s.take(k)) <= x < total_of(s.take(k)) + s[k].score_counter.score,
    ensures
        weighted_choice(s, x, Some(s[k].peer_info.peer_id)),
{
    law_sum_adds_up_scores(s.take(k));
    crate::roster::lemma_score_sum_take(s, k);
    assert(falls_to(s, x, k));
}

/// Each number from one to below the running total can be the one that picks.
pub proof fn law_every_number_can_be_drawn(view: PeerSelectorView, x: int, choice: Option<PeerId>)
    requires
        view.details.len() > 1,
        1 <= x < view.total_score,
        weighted_choice(view.details, x, choice),
    ensures
        weighted_random_choice(view, choice),
{
}

/// A choice by scores is none without a peer and the only one with one. Among more it is what some
/// number from one to below the running total picks.
pub proof fn law_weighted_choice_draws_below_total(view: PeerSelectorView, choice: Option<PeerId>)
    requires
        weighted_random_choice(view, choice),
    ensures
        view.details.len() == 0 ==> choice is None,
        view.details.len() == 1 ==> choice == Some(view.details[0].peer_info.peer_id),
        view.details.len() > 1 ==> exists|x: int|
            {
                &&& 1 <= x < view.total_score
                &&& #[trigger] weighted_choice(view.details, x, choice)
            },
{
}

/// Without a peer none is picked. Below an average score of 200 any peer is. From there on it is
/// the first with the highest score, the first with the highest average score, or one that a drawn
/// number picks by the scores, as the strategy says.
pub proof fn law_strategy_picks(view: PeerSelectorView, choice: Option<PeerId>)
    requires
        selected(view, choice),
    ensures
        ({
            let s = view.details;
            let scored = s.len() > 0 && view.total_score >= 200 * s.len();
            &&& s.len() == 0 ==> choice is None
            &&& s.len() > 0 && (!scored || view.strategy != PeerStrategy::WeightedRandom)
                ==> choice is Some
            &&& choice matches Some(id) ==> {
                &&& exists|i: int| 0 <= i < s.len() && (#[trigger] s[i]).peer_info.peer_id == id
                &&& scored && view.strategy == PeerStrategy::Best ==> exists|i: int|
                    {
                        &&& 0 <= i < s.len()
                        &&& (#[trigger] s[i]).peer_info.peer_id == id
                        &&& forall|j: int|
                            0 <= j < s.len() ==> (#[trigger] s[j]).score_counter.score
                                <= s[i].score_counter.score
                        &&& forall|j: int|
                            0 <= j < i ==> (#[trigger] s[j]).score_counter.score
                                < s[i].score_counter.score
                    }
                &&& scored && view.strategy == PeerStrategy::Avg ==> exists|i: int|
                    {
                        &&& 0 <= i < s.len()
                        &&& (#[trigger] s[i]).peer_info.peer_id == id
                        &&& forall|j: int|
                            0 <= j < s.len() ==> (#[trigger] s[j]).score_counter.spec_avg()
                                <= s[i].score_counter.spec_avg()
                        &&& forall|j: int|
                            0 <= j < i ==> (#[trigger] s[j]).score_counter.spec_avg()
                                < s[i].score_counter.spec_avg()
                    }
            }
            &&& scored && view.strategy == PeerStrategy::WeightedRandom ==> weighted_random_choice(
                view,
                choice,
            )
        }),
{
    let s = view.details;
    law_strategy_needs_an_average_of_200(view);
    match view.effective_strategy() {
        None => {},
        Some(PeerStrategy::Random) => {
            law_any_choice_is_a_peer(s, choice);
        },
        Some(PeerStrategy::WeightedRandom) => {
            if s.len() > 1 {
                let x = choose|x: int|
                    1 <= x < view.total_score && #[trigger] weighted_choice(s, x, choice);
                law_number_picks_by_score(s, x, choice);
            } else {
                assert(s[0].peer_info.peer_id == choice->0);
            }
        },
        Some(PeerStrategy::Best) => {
            law_top_score_is_unbeaten(s, choice);
        },
        Some(PeerStrategy::Avg) => {
            law_top_average_is_unbeaten(s, choice);
        },
    }
}

/// The strategy leaves nothing out: below an average score of 200 each peer can be picked, and from
/// there on, where it goes by chance and scores, all that a choice by scores can pick.
pub proof fn law_strategy_leaves_nothing_out(view: PeerSelectorView, i: int, choice: Option<PeerId>)
    requires
        0 <= i < view.details.len(),
    ensures
        view.total_score < 200 * view.details.len() || view.strategy == PeerStrategy::Random
            ==> selected(view, Some(view.details[i].peer_info.peer_id)),
        view.total_score >= 200 * view.details.len() && view.strategy
            == PeerStrategy::WeightedRandom && weighted_random_choice(view, choice) ==> selected(
            view,
            choice,
        ),
{
    law_strategy_needs_an_average_of_200(view);
    law_any_peer_can_be_picked(view.details, i);
}

/// Scores can be added up until the sum exceeds a number if and only if no sum on the way leaves
/// the `u64` range.
pub proof fn law_when_sums_fit(s: Seq<PeerDetail>, x: int)
    ensures
        sums_fit(s, x) <==> forall|k: int|
            0 <= k < s.len() && total_of(#[trigger] s.take(k)) <= x ==> total_of(s.take(k))
                + s[k].score_counter.score <= u64::MAX,
{
    assert forall|k: int| 0 <= k < s.len() implies {
        &&& score_sum(#[trigger] s.take(k)) == total_of(s.take(k))
        &&& score_sum(s.take(k + 1)) == total_of(s.take(k)) + s[k].score_counter.score
    } by {
        law_sum_adds_up_scores(s.take(k));
        crate::roster::lemma_score_sum_take(s, k);
    }
    if sums_fit(s, x) {
        assert forall|k: int|
            0 <= k < s.len() && total_of(#[trigger] s.take(k)) <= x implies total_of(s.take(k))
            + s[k].score_counter.score <= u64::MAX by {
            assert(score_sum(s.take(k + 1)) <= u64::MAX);
        }
    }
    if forall|k: int|
        0 <= k < s.len() && total_of(#[trigger] s.take(k)) <= x ==> total_of(s.take(k))
            + s[k].score_counter.score <= u64::MAX {
        assert forall|k: int| 0 <= k < s.len() && score_sum(s.take(k)) <= x implies score_sum(
            #[trigger] s.take(k + 1),
        ) <= u64::MAX by {
            assert(total_of(s.take(k)) <= x);
        }
    }
}

/// A choice by scores is possible if and only if there is a number to draw where more than one peer
/// is known, and for no such number the scores that are added up leave the `u64` range.
pub proof fn law_when_scores_can_be_weighed(view: PeerSelectorView)
    ensures
        ({
            let s = view.details;
            &&& weighable(view) <==> (s.len() <= 1 || (view.total_score >= 2 && forall|k: int|
                0 <= k < s.len() && total_of(#[trigger] s.take(k)) < view.total_score ==> total_of(
                    s.take(k),
                ) + s[k].score_counter.score <= u64::MAX))
            &&& selectable(view) <==> (weighable(view) || view.effective_strategy() != Some(
                PeerStrategy::WeightedRandom,
            ))
        }),
{
    law_when_sums_fit(view.details, view.total_score - 1);
}

/// The names of the strategies, and that reading a name gives back the strategy that has it.
pub proof fn law_names_read_back(strategy: PeerStrategy, read: Result<PeerStrategy, String>)
    ensures
        PeerStrategy::Random.name() == "random"@,
        PeerStrategy::WeightedRandom.name() == "weighted"@,
        PeerStrategy::Best.name() == "top"@,
        PeerStrategy::Avg.name() == "avg"@,
        PeerStrategy::Random.variant_name() == "Random"@,
        PeerStrategy::WeightedRandom.variant_name() == "WeightedRandom"@,
        PeerStrategy::Best.variant_name() == "Best"@,
        PeerStrategy::Avg.variant_name() == "Avg"@,
        reads_as(strategy.name(), read) ==> read == Ok::<PeerStrategy, String>(strategy),
{
}

/// A text that is no strategy's name is an error that quotes it.
pub proof fn law_other_names_are_errors(text: Seq<char>, read: Result<PeerStrategy, String>)
    requires
        reads_as(text, read),
        text != "random"@,
        text != "weighted"@,
        text != "top"@,
        text != "avg"@,
    ensures
        read matches Err(message) && message@ == "Unknown peer strategy: "@ + text,
{
}

/// The number that a text of decimal digits writes.
pub open spec fn written_number(text: Seq<char>) -> int
    decreases text.len(),
{
    if text.len() == 0 {
        0
    } else {
        10 * written_number(text.drop_last()) + (text.last() as int - '0' as int)
    }
}

/// A number's text has decimal digits only, starts with zero only where it is zero alone, and
/// writes the number.
pub proof fn law_decimal_writes_the_number(n: nat)
    ensures
        decimal(n).len() > 0,
        forall|i: int| 0 <= i < decimal(n).len() ==> '0' <= #[trigger] decimal(n)[i] <= '9',
        decimal(n).len() > 1 ==> decimal(n)[0] != '0',
        written_number(decimal(n)) == n,
    decreases n,
{
    if n < 10 {
        assert(decimal(n).drop_last() =~= Seq::<char>::empty());
        reveal_with_fuel(written_number, 2);
    } else {
        law_decimal_writes_the_number(n / 10);
        let shorter = decimal(n / 10);
        assert(decimal(n).drop_last() =~= shorter);
        if shorter.len() == 1 {
            reveal_with_fuel(written_number, 2);
            assert(shorter.drop_last() =~= Seq::<char>::empty());
        }
    }
}

/// A selector's description gives the number of peers, the strategy and the running total.
pub proof fn law_description_tells_all(view: PeerSelectorView)
    ensures
        view.description() == "peer len : "@ + decimal(view.details.len()) + ", strategy : "@
            + view.strategy.variant_name() + ", total score : "@ + decimal(view.total_score as nat),
{
}

} // verus!
