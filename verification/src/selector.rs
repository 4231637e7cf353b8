//! The peers that a node knows, and the choice of the one to ask next.

use crate::lemmas::lemma_filter_snoc;
use crate::order::{
    ascending, descending_order, lemma_descending_order_permutes, lemma_empty_is_sorted, of_rank,
    reverse, sort_by_key, sorted_by_key, Ranked,
};
use crate::peer::PeerDetail;
use crate::random::{choose_from_iter, choose_from_slice, draw_below};
use crate::roster::{
    above, added_or_updated, among, any_choice, best_infos, better_infos, by_avg_score, by_score,
    falls_to, first_highest, highest, ids, infos, lemma_bests_nonempty, lemma_position,
    lemma_position_at, lemma_reversed_infos_step, lemma_score_sum_monotone, lemma_score_sum_take,
    lemma_sorted_ends_highest, lemma_unrated_sum, marked, position, rated, removed, removed_score,
    reputation_of, rescored, retained, saturated, score_sum, scores, sums_fit, top_choice,
    weighted_choice,
};
use crate::score::{change_wrapping, wrapping_change};
use crate::strategy::PeerStrategy;
use crate::text::{decimal, decimal_text};
use crate::types::{PeerId, PeerInfo, U256};
use vstd::prelude::*;

verus! {

/// The average score from which on the strategy has a say.
pub const MIN_AVERAGE_SCORE: u64 = 200;

/// The peers that a node knows, their scores, and the strategy by which it picks one.
pub struct PeerSelector {
    details: Vec<PeerDetail>,
    total_score: u64,
    strategy: PeerStrategy,
}

/// What a [`PeerSelector`] holds.
#[verifier::ext_equal]
pub struct PeerSelectorView {
    /// The peers, in order.
    pub details: Seq<PeerDetail>,
    /// The running total of the scores.
    pub total_score: u64,
    pub strategy: PeerStrategy,
}

impl View for PeerSelector {
    type V = PeerSelectorView;

    closed spec fn view(&self) -> PeerSelectorView {
        PeerSelectorView {
            details: self.details@,
            total_score: self.total_score,
            strategy: self.strategy,
        }
    }
}

impl PeerSelectorView {
    /// The average score, rounded down.
    pub open spec fn average_score(self) -> int
        recommends
            self.details.len() > 0,
    {
        self.total_score as int / self.details.len() as int
    }

    /// The strategy that is in effect: while the average score is below
    /// [`MIN_AVERAGE_SCORE`], peers are picked at random.
    pub open spec fn effective_strategy(self) -> Option<PeerStrategy> {
        if self.details.len() == 0 {
            None
        } else if self.average_score() < MIN_AVERAGE_SCORE {
            Some(PeerStrategy::Random)
        } else {
            Some(self.strategy)
        }
    }

    /// The peers after taking over what one of them offers.
    pub open spec fn with_peer(self, info: PeerInfo) -> PeerSelectorView {
        PeerSelectorView { details: added_or_updated(self.details, info), ..self }
    }

    /// The peers after forgetting one of them.
    pub open spec fn without_peer(self, id: PeerId) -> PeerSelectorView {
        let score = removed_score(self.details, id);
        PeerSelectorView {
            details: removed(self.details, id),
            total_score: if self.total_score >= score {
                (self.total_score - score) as u64
            } else {
                0
            },
            strategy: self.strategy,
        }
    }

    /// The peers after forgetting all but the given ones.
    pub open spec fn only_peers(self, peers: Seq<PeerId>) -> PeerSelectorView {
        PeerSelectorView {
            details: retained(self.details, peers),
            total_score: saturated(score_sum(retained(self.details, peers))),
            strategy: self.strategy,
        }
    }

    /// The peers after a change of the score of one of them.
    pub open spec fn with_score_change(self, id: PeerId, change: i64) -> PeerSelectorView {
        PeerSelectorView {
            details: rescored(self.details, id, change),
            total_score: wrapping_change(self.total_score, change) as u64,
            strategy: self.strategy,
        }
    }

    /// The text that describes the selector.
    pub open spec fn description(self) -> Seq<char> {
        "peer len : "@ + decimal(self.details.len()) + ", strategy : "@
            + self.strategy.variant_name() + ", total score : "@ + decimal(self.total_score as nat)
    }
}

/// A choice by scores: no peer where there is none, the only one where there is one, and else the
/// peer that some number from one to below the total score falls to.
pub open spec fn weighted_random_choice(view: PeerSelectorView, choice: Option<PeerId>) -> bool {
    if view.details.len() == 0 {
        choice is None
    } else if view.details.len() == 1 {
        choice == Some(view.details[0].peer_info.peer_id)
    } else {
        exists|x: int|
            1 <= x < view.total_score && #[trigger] weighted_choice(view.details, x, choice)
    }
}

/// A choice by scores is possible: with more than one peer there is a number to draw, and adding up
/// the scores stays in the `u64` range whichever number is drawn.
pub open spec fn weighable(view: PeerSelectorView) -> bool {
    view.details.len() > 1 ==> view.total_score > 1 && sums_fit(view.details, view.total_score - 1)
}

/// A choice by the strategy that is in effect is possible.
pub open spec fn selectable(view: PeerSelectorView) -> bool {
    view.effective_strategy() == Some(PeerStrategy::WeightedRandom) ==> weighable(view)
}

/// A choice by the strategy that is in effect.
pub open spec fn selected(view: PeerSelectorView, choice: Option<PeerId>) -> bool {
    match view.effective_strategy() {
        None => choice is None,
        Some(PeerStrategy::Random) => any_choice(view.details, choice),
        Some(PeerStrategy::WeightedRandom) => weighted_random_choice(view, choice),
        Some(PeerStrategy::Best) => top_choice(view.details, by_score(), choice),
        Some(PeerStrategy::Avg) => top_choice(view.details, by_avg_score(), choice),
    }
}

/// The score that the list gives the peer: that of its last entry about it, or one.
fn reputation(reputations: &Vec<(PeerId, u64)>, peer_id: &PeerId) -> (r: u64)
    ensures
        r == reputation_of(reputations@, *peer_id),
{
    let ghost all = reputations@;
    let mut i: usize = reputations.len();
    assert(all.take(all.len() as int) =~= all);
    while i > 0
        invariant
            i <= reputations.len(),
            all == reputations@,
            reputation_of(all, *peer_id) == reputation_of(all.take(i as int), *peer_id),
        decreases i,
    {
        i -= 1;
        assert(all.take(i as int + 1).drop_last() =~= all.take(i as int));
        if reputations[i].0 == *peer_id {
            return reputations[i].1;
        }
    }
    1
}

/// The sum of the scores that the list gives the peers, if it is a `u64`.
pub fn total_reputation(reputations: &Vec<(PeerId, u64)>, peers: &Vec<PeerInfo>) -> (r: Option<u64>)
    ensures
        match r {
            Some(sum) => sum == score_sum(rated(reputations@, peers@)),
            None => score_sum(rated(reputations@, peers@)) > u64::MAX,
        },
{
    let ghost all = rated(reputations@, peers@);
    let mut sum: u64 = 0;
    let mut i: usize = 0;
    assert(all.take(all.len() as int) =~= all);
    while i < peers.len()
        invariant
            i <= peers.len(),
            all == rated(reputations@, peers@),
            all.take(all.len() as int) == all,
            sum == score_sum(all.take(i as int)),
        decreases peers.len() - i,
    {
        proof {
            lemma_score_sum_take(all, i as int);
            lemma_score_sum_monotone(all, i as int + 1, all.len() as int);
        }
        match sum.checked_add(reputation(reputations, &peers[i].peer_id())) {
            Some(more) => {
                sum = more;
            },
            None => {
                return None;
            },
        }
        i += 1;
    }
    Some(sum)
}

/// Tells whether the peer is one of the given ones.
pub(crate) fn contains_peer(peers: &[PeerId], peer_id: &PeerId) -> (r: bool)
    ensures
        r == peers@.contains(*peer_id),
{
    let mut i: usize = 0;
    while i < peers.len()
        invariant
            i <= peers.len(),
            forall|j: int| 0 <= j < i ==> peers@[j] != *peer_id,
        decreases peers.len() - i,
    {
        if peers[i] == *peer_id {
            return true;
        }
        i += 1;
    }
    false
}

/// Tells whether the score of `top` is at least that of `current`.
fn outscores(top: &PeerDetail, current: &PeerDetail) -> (r: bool)
    ensures
        r == (top.score_counter.score >= current.score_counter.score),
{
    top.score() >= current.score()
}

/// Tells whether the average score of `top` is at least that of `current`.
fn outscores_on_average(top: &PeerDetail, current: &PeerDetail) -> (r: bool)
    ensures
        r == (top.score_counter.spec_avg() >= current.score_counter.spec_avg()),
{
    top.avg_score() >= current.avg_score()
}

/// The top entry changes from the one at `before` to the one at `after` when the one at `i` comes
/// up: that one takes the top entry's place unless `holds` tells that the top one holds its place.
spec fn top_moves<F>(holds: F, s: Seq<PeerDetail>, before: int, i: int, after: int) -> bool where
    F: Fn(&PeerDetail, &PeerDetail) -> bool,
 {
    ||| after == before && call_ensures(holds, (&s[before], &s[i]), true)
    ||| after == i && call_ensures(holds, (&s[before], &s[i]), false)
}

/// The top entries, one after each entry that came up, from the first one on.
spec fn are_tops<F>(holds: F, s: Seq<PeerDetail>, tops: Seq<int>) -> bool where
    F: Fn(&PeerDetail, &PeerDetail) -> bool,
 {
    &&& 0 < tops.len() <= s.len()
    &&& tops[0] == 0
    &&& forall|i: int|
        0 < i < tops.len() ==> top_moves(holds, s, tops[i - 1], i, #[trigger] tops[i])
}

/// Where an entry holds its place if it measures at least as much as the next one, the last top
/// entry is the first of the highest among those that came up.
proof fn lemma_top_is_highest<F>(
    holds: F,
    s: Seq<PeerDetail>,
    tops: Seq<int>,
    measure: spec_fn(PeerDetail) -> int,
) where F: Fn(&PeerDetail, &PeerDetail) -> bool,

    requires
        are_tops(holds, s, tops),
        forall|a: PeerDetail, b: PeerDetail, r: bool| #[trigger]
            call_ensures(holds, (&a, &b), r) ==> r == (measure(a) >= measure(b)),
    ensures
        first_highest(s.take(tops.len() as int), measure, tops.last()),
    decreases tops.len(),
{
    let n = tops.len() as int;
    if n > 1 {
        let before = tops[n - 2];
        assert(top_moves(holds, s, before, n - 1, tops[n - 1]));
        assert forall|i: int| 0 < i < n - 1 implies top_moves(
            holds,
            s,
            tops.drop_last()[i - 1],
            i,
            #[trigger] tops.drop_last()[i],
        ) by {
            assert(top_moves(holds, s, tops[i - 1], i, tops[i]));
        }
        lemma_top_is_highest(holds, s, tops.drop_last(), measure);
        let t = s.take(n - 1);
        assert forall|j: int| 0 <= j < n - 1 implies {
            &&& measure(#[trigger] s.take(n)[j]) <= measure(s[before])
            &&& j < before ==> measure(s.take(n)[j]) < measure(s[before])
        } by {
            assert(t[j] == s[j]);
        }
    }
}

impl PeerSelector {
    /// Knows the given peers, each with a score of one.
    pub fn new(peers: Vec<PeerInfo>, strategy: PeerStrategy) -> (r: PeerSelector)
        ensures
            r@.details == rated(Seq::empty(), peers@),
            r@.total_score == peers@.len(),
            r@.strategy == strategy,
    {
        proof {
            lemma_unrated_sum(peers@);
            assert(peers.len() <= usize::MAX);
        }
        let reputations: Vec<(PeerId, u64)> = Vec::new();
        assert(reputations@ =~= Seq::empty());
        PeerSelector::new_with_reputation(reputations, peers, strategy)
    }

    /// Knows the given peers, each with the score that the last entry of `reputations` about it
    /// gives, or one.
    pub fn new_with_reputation(
        reputations: Vec<(PeerId, u64)>,
        peers: Vec<PeerInfo>,
        strategy: PeerStrategy,
    ) -> (r: PeerSelector)
        requires
            score_sum(rated(reputations@, peers@)) <= u64::MAX,
        ensures
            r@.details == rated(reputations@, peers@),
            r@.total_score == score_sum(rated(reputations@, peers@)),
            r@.strategy == strategy,
    {
        let ghost all = rated(reputations@, peers@);
        let mut details: Vec<PeerDetail> = Vec::new();
        let mut total_score: u64 = 0;
        let mut i: usize = 0;
        while i < peers.len()
            invariant
                i <= peers.len(),
                all == rated(reputations@, peers@),
                score_sum(all) <= u64::MAX,
                details@ == all.take(i as int),
                total_score == score_sum(all.take(i as int)),
            decreases peers.len() - i,
        {
            let score = reputation(&reputations, &peers[i].peer_id());
            proof {
                lemma_score_sum_take(all, i as int);
                lemma_score_sum_monotone(all, i as int + 1, all.len() as int);
                assert(all.take(all.len() as int) =~= all);
                assert(all.take(i as int + 1) =~= all.take(i as int).push(all[i as int]));
            }
            total_score += score;
            details.push(PeerDetail::from((peers[i], score)));
            i += 1;
        }
        assert(all.take(all.len() as int) =~= all);
        PeerSelector { details, total_score, strategy }
    }

    /// Picks peers by `strategy` from now on.
    pub fn switch_strategy(&mut self, strategy: PeerStrategy)
        ensures
            final(self)@ == (PeerSelectorView { strategy, ..old(self)@ }),
    {
        self.strategy = strategy;
    }

    /// The strategy by which peers are picked.
    pub fn strategy(&self) -> (r: PeerStrategy)
        ensures
            r == self@.strategy,
    {
        self.strategy
    }

    /// The running total of the scores.
    pub fn total_score(&self) -> (r: u64)
        ensures
            r == self@.total_score,
    {
        self.total_score
    }

    /// The place of the first entry about the peer, or the length where there is none.
    fn find(&self, peer_id: &PeerId) -> (r: usize)
        ensures
            r == position(self@.details, *peer_id),
            r <= self@.details.len(),
    {
        let mut i: usize = 0;
        while i < self.details.len() && self.details[i].peer_id() != *peer_id
            invariant
                i <= self.details.len(),
                forall|j: int|
                    0 <= j < i ==> (#[trigger] self.details@[j]).peer_info.peer_id != *peer_id,
            decreases self.details.len() - i,
        {
            i += 1;
        }
        proof {
            lemma_position_at(self.details@, *peer_id, i as int);
        }
        i
    }

    /// What the peer offers, if it is known.
    pub fn peer_info(&self, peer_id: &PeerId) -> (r: Option<PeerInfo>)
        ensures
            ({
                let i = position(self@.details, *peer_id);
                r == if i < self@.details.len() {
                    Some(self@.details[i].peer_info)
                } else {
                    None
                }
            }),
            match r {
                Some(info) => exists|i: int|
                    {
                        &&& 0 <= i < self@.details.len()
                        &&& (#[trigger] self@.details[i]).peer_info == info
                        &&& info.peer_id == *peer_id
                        &&& forall|j: int|
                            0 <= j < i ==> (#[trigger] self@.details[j]).peer_info.peer_id
                                != *peer_id
                    },
                None => forall|j: int|
                    0 <= j < self@.details.len() ==> (
                    #[trigger] self@.details[j]).peer_info.peer_id != *peer_id,
            },
    {
        let i = self.find(peer_id);
        proof {
            lemma_position(self.details@, *peer_id);
            if i < self.details.len() {
                assert(self@.details[i as int].peer_info.peer_id == *peer_id);
            }
        }
        if i < self.details.len() {
            Some(self.details[i].peer_info)
        } else {
            None
        }
    }

    /// Tells whether the peer is known.
    pub fn peer_exist(&self, peer_id: &PeerId) -> (r: bool)
        ensures
            r == ids(self@.details).contains(*peer_id),
            r == exists|i: int|
                0 <= i < self@.details.len() && (#[trigger] self@.details[i]).peer_info.peer_id
                    == *peer_id,
    {
        let i = self.find(peer_id);
        proof {
            lemma_position(self.details@, *peer_id);
            if i < self.details.len() {
                assert(self@.details[i as int].peer_info.peer_id == *peer_id);
            }
        }
        i < self.details.len()
    }

    /// Changes the peer's score, and the total of the scores, by `score`. The total changes even
    /// where the peer is not known. Both wrap around at the ends of the `u64` range.
    pub fn peer_score(&mut self, peer_id: &PeerId, score: i64)
        ensures
            final(self)@ == old(self)@.with_score_change(*peer_id, score),
    {
        let ghost s = self.details@;
        let ghost t = rescored(s, *peer_id, score);
        let mut i: usize = 0;
        while i < self.details.len()
            invariant
                i <= self.details.len(),
                self.details@.len() == s.len(),
                self.total_score == old(self).total_score,
                self.strategy == old(self).strategy,
                t == rescored(s, *peer_id, score),
                forall|j: int| 0 <= j < i ==> self.details@[j] == t[j],
                forall|j: int| i <= j < s.len() ==> self.details@[j] == s[j],
            decreases self.details.len() - i,
        {
            let mut detail = self.details[i];
            if detail.peer_id() == *peer_id {
                detail.score_counter.inc_by(score);
                self.details.set(i, detail);
            }
            i += 1;
        }
        assert(self.details@ =~= t);
        self.total_score = change_wrapping(self.total_score, score);
    }

    /// Takes over what a peer offers. A peer that is not known yet is added at the end with a
    /// score of one, which the total of the scores leaves out.
    pub fn add_or_update_peer(&mut self, peer_info: PeerInfo)
        ensures
            final(self)@ == old(self)@.with_peer(peer_info),
    {
        let i = self.find(&peer_info.peer_id());
        if i < self.details.len() {
            let mut detail = self.details[i];
            detail.peer_info = peer_info;
            self.details.set(i, detail);
        } else {
            self.details.push(PeerDetail::from(peer_info));
        }
    }

    /// The identities of the first `n` peers by descending total difficulty. The peers stay in
    /// that order afterwards: of peers whose chains are equally difficult, the later one first.
    pub fn top(&mut self, n: usize) -> (r: Vec<PeerId>)
        ensures
            descending_order(old(self)@.details, final(self)@.details),
            final(self)@.total_score == old(self)@.total_score,
            final(self)@.strategy == old(self)@.strategy,
            r@ == ids(final(self)@.details).take(if n < old(self)@.details.len() {
                n as int
            } else {
                old(self)@.details.len() as int
            }),
    {
        if self.is_empty() {
            proof {
                assert(self.details@.reverse() =~= self.details@);
                lemma_empty_is_sorted(self.details@);
            }
            let none: Vec<PeerId> = Vec::new();
            assert(none@ =~= ids(self.details@).take(0));
            return none;
        }
        Self::sort(&mut self.details);
        proof {
            lemma_descending_order_permutes(old(self).details@, self.details@);
        }
        let ghost all = ids(self.details@);
        let mut top: Vec<PeerId> = Vec::new();
        while top.len() < self.details.len() && top.len() < n
            invariant
                all == ids(self.details@),
                top@.len() <= self.details@.len(),
                top@.len() <= n,
                top@ == all.take(top@.len() as int),
            decreases self.details.len() - top.len(),
        {
            let i: usize = top.len();
            assert(all.take(i as int + 1) =~= all.take(i as int).push(all[i as int]));
            top.push(self.details[i].peer_id());
        }
        top
    }

    /// Puts peers in the order of descending total difficulty, peers of equal difficulty in the
    /// reverse of their order before.
    fn sort(peers: &mut Vec<PeerDetail>)
        ensures
            descending_order(old(peers)@, final(peers)@),
    {
        sort_by_key(peers);
        let ghost sorted = peers@;
        reverse(peers);
        assert(peers@.reverse() =~= sorted);
    }

    /// What the peers offer whose chains have the greatest total difficulty, if it is above
    /// `min_difficulty`. Of these peers the last one comes first.
    pub fn bests(&self, min_difficulty: U256) -> (r: Option<Vec<PeerInfo>>)
        ensures
            match r {
                Some(bests) => best_infos(self@.details, min_difficulty@) == Some(bests@),
                None => best_infos(self@.details, min_difficulty@) is None,
            },
    {
        if self.is_empty() {
            return None;
        }
        let ghost s = self.details@;
        let sorted = sorted_by_key(&self.details);
        let ghost t = sorted@.unref();
        proof {
            lemma_sorted_ends_highest(s, t);
        }
        let mut peers: Vec<PeerInfo> = Vec::new();
        let mut i: usize = sorted.len();
        while i > 0
            invariant
                i <= sorted.len(),
                t == sorted@.unref(),
                t.len() > 0,
                ascending(t),
                t[t.len() - 1].rank() == highest(s),
                i < sorted.len() ==> peers@.len() > 0,
                i == sorted.len() ==> peers@.len() == 0,
                peers@.len() > 0 ==> peers@[0].difficulty() == highest(s),
                peers@ == infos(of_rank(t.skip(i as int), highest(s)).reverse()),
            decreases i,
        {
            i -= 1;
            let peer: &PeerDetail = sorted[i];
            proof {
                lemma_reversed_infos_step(t, i as int, highest(s));
                assert(t[i as int].rank() <= t[t.len() - 1].rank());
                assert(*peer == t[i as int]);
            }
            if peers.len() == 0 || !peers[0].total_difficulty().exceeds(
                &peer.peer_info.total_difficulty(),
            ) {
                peers.push(peer.peer_info);
            }
        }
        proof {
            assert(t.skip(0) =~= t);
            assert(of_rank(t, highest(s)) == of_rank(s, highest(s)));
        }
        if peers.len() == 0 || !peers[0].total_difficulty().exceeds(&min_difficulty) {
            None
        } else {
            Some(peers)
        }
    }

    /// What the peers whose chains have a total difficulty above the given one offer, if there
    /// are any.
    pub fn betters(&self, difficulty: U256) -> (r: Option<Vec<PeerInfo>>)
        ensures
            match r {
                Some(betters) => better_infos(self@.details, difficulty@) == Some(betters@),
                None => better_infos(self@.details, difficulty@) is None,
            },
    {
        let ghost s = self.details@;
        let ghost test = above(difficulty@);
        let mut betters: Vec<PeerInfo> = Vec::new();
        let mut i: usize = 0;
        proof {
            reveal(Seq::filter);
            assert(infos(s.take(0).filter(test)) =~= Seq::<PeerInfo>::empty());
        }
        while i < self.details.len()
            invariant
                i <= self.details.len(),
                s == self.details@,
                test == above(difficulty@),
                betters@ == infos(s.take(i as int).filter(test)),
            decreases self.details.len() - i,
        {
            let peer = self.details[i];
            proof {
                lemma_filter_snoc(s.take(i as int + 1), test);
                assert(s.take(i as int + 1).drop_last() =~= s.take(i as int));
                let before = s.take(i as int).filter(test);
                assert(infos(before.push(peer)) =~= infos(before).push(peer.peer_info));
            }
            if peer.peer_info().total_difficulty().exceeds(&difficulty) {
                betters.push(*peer.peer_info());
            }
            i += 1;
        }
        assert(s.take(s.len() as int) =~= s);
        if betters.is_empty() {
            None
        } else {
            Some(betters)
        }
    }

    /// What one of the peers offers whose chains have the greatest total difficulty, if that is
    /// above zero. Which of them it is, is left to chance.
    pub fn best(&self) -> (r: Option<PeerInfo>)
        ensures
            match best_infos(self@.details, 0) {
                Some(bests) => r matches Some(peer) && bests.contains(peer),
                None => r is None,
            },
    {
        if let Some(peers) = self.bests(U256::zero()) {
            proof {
                lemma_bests_nonempty(self.details@, 0);
            }
            match choose_from_slice(&peers) {
                Some(peer) => Some(*peer),
                None => None,
            }
        } else {
            None
        }
    }

    /// The identities of the known peers.
    pub fn peers(&self) -> (r: Vec<PeerId>)
        ensures
            r@ == ids(self@.details),
            r@.len() == self@.details.len(),
            forall|i: int|
                0 <= i < r@.len() ==> #[trigger] r@[i] == self@.details[i].peer_info.peer_id,
    {
        let ghost all = ids(self.details@);
        let mut peers: Vec<PeerId> = Vec::new();
        let mut i: usize = 0;
        while i < self.details.len()
            invariant
                i <= self.details.len(),
                all == ids(self.details@),
                peers@ == all.take(i as int),
            decreases self.details.len() - i,
        {
            assert(all.take(i as int + 1) =~= all.take(i as int).push(all[i as int]));
            peers.push(self.details[i].peer_id());
            i += 1;
        }
        assert(all.take(all.len() as int) =~= all);
        peers
    }

    /// The identities of the peers that pass the test `f`.
    pub fn peers_by_filter<F>(&self, f: F) -> (r: Vec<PeerId>)
        where
            F: Fn(&PeerInfo) -> bool,

        requires
            forall|i: int|
                0 <= i < self@.details.len() ==> call_requires(
                    f,
                    (&(#[trigger] self@.details[i]).peer_info,),
                ),
        ensures
            exists|marks: Seq<bool>|
                {
                    &&& marks.len() == self@.details.len()
                    &&& forall|i: int|
                        0 <= i < marks.len() ==> call_ensures(
                            f,
                            (&self@.details[i].peer_info,),
                            #[trigger] marks[i],
                        )
                    &&& r@ == #[trigger] marked(ids(self@.details), marks)
                },
    {
        let ghost s = self@.details;
        let ghost all = ids(s);
        let ghost mut marks: Seq<bool> = Seq::empty();
        let mut peers: Vec<PeerId> = Vec::new();
        let mut i: usize = 0;
        while i < self.details.len()
            invariant
                i <= self.details.len(),
                s == self@.details,
                all == ids(s),
                forall|j: int|
                    0 <= j < s.len() ==> call_requires(
                        f,
                        (&(#[trigger] s[j]).peer_info,),
                    ),
                marks.len() == i,
                forall|j: int|
                    0 <= j < i ==> call_ensures(
                        f,
                        (&s[j].peer_info,),
                        #[trigger] marks[j],
                    ),
                peers@ == marked(all.take(i as int), marks),
            decreases self.details.len() - i,
        {
            let peer = &self.details[i];
            assert(*peer == s[i as int]);
            let passes = f(peer.peer_info());
            proof {
                let longer = marks.push(passes);
                assert(longer.drop_last() =~= marks);
                assert(all.take(i as int + 1).drop_last() =~= all.take(i as int));
                marks = longer;
            }
            if passes {
                peers.push(peer.peer_id());
            }
            i += 1;
        }
        assert(all.take(all.len() as int) =~= all);
        assert(peers@ == marked(ids(self@.details), marks));
        peers
    }

    /// Forgets all peers but the given ones. The total of the scores becomes that of the peers
    /// that stay, or the greatest `u64` where it is above that.
    pub fn retain(&mut self, peers: &[PeerId])
        ensures
            final(self)@ == old(self)@.only_peers(peers@),
    {
        let ghost s = self.details@;
        let ghost test = among(peers@);
        let mut kept: Vec<PeerDetail> = Vec::new();
        let mut score: u64 = 0;
        let mut i: usize = 0;
        proof {
            reveal(Seq::filter);
            assert(s.take(0).filter(test) =~= Seq::<PeerDetail>::empty());
        }
        while i < self.details.len()
            invariant
                i <= self.details.len(),
                s == self.details@,
                test == among(peers@),
                kept@ == s.take(i as int).filter(test),
                score == saturated(score_sum(kept@)),
            decreases self.details.len() - i,
        {
            let peer = self.details[i];
            proof {
                lemma_filter_snoc(s.take(i as int + 1), test);
                assert(s.take(i as int + 1).drop_last() =~= s.take(i as int));
                assert(kept@.push(peer).drop_last() =~= kept@);
            }
            if contains_peer(peers, &peer.peer_id()) {
                score = score.saturating_add(peer.score());
                kept.push(peer);
            }
            i += 1;
        }
        assert(s.take(s.len() as int) =~= s);
        self.details = kept;
        self.total_score = score;
    }

    /// Forgets the peer, by its first entry, and takes its score off the total, down to zero at
    /// most. Returns how many peers are left.
    pub fn remove_peer(&mut self, peer: &PeerId) -> (r: usize)
        ensures
            final(self)@ == old(self)@.without_peer(*peer),
            r == final(self)@.details.len(),
    {
        let i = self.find(peer);
        if i < self.details.len() {
            let detail = self.details.remove(i);
            self.total_score = self.total_score.saturating_sub(detail.score());
        }
        self.details.len()
    }

    /// The strategy that is in effect: while the average score is below
    /// [`MIN_AVERAGE_SCORE`], peers are picked at random. None is where no peer is known.
    pub fn effective_strategy(&self) -> (r: Option<PeerStrategy>)
        ensures
            r == self@.effective_strategy(),
    {
        let len: u64 = self.details.len() as u64;
        if len == 0 {
            return None;
        }
        let avg_score: u64 = self.total_score / len;
        if avg_score < MIN_AVERAGE_SCORE {
            Some(PeerStrategy::Random)
        } else {
            Some(self.strategy)
        }
    }

    /// Picks a peer by the strategy that is in effect.
    pub fn select_peer(&self) -> (r: Option<PeerId>)
        requires
            selectable(self@),
        ensures
            selected(self@, r),
            match self@.effective_strategy() {
                None => r is None,
                Some(PeerStrategy::Random) => r is Some && any_choice(self@.details, r),
                Some(PeerStrategy::WeightedRandom) => weighted_random_choice(self@, r),
                Some(PeerStrategy::Best) => r is Some && top_choice(self@.details, by_score(), r),
                Some(PeerStrategy::Avg) => r is Some && top_choice(
                    self@.details,
                    by_avg_score(),
                    r,
                ),
            },
    {
        match self.effective_strategy() {
            None => None,
            Some(PeerStrategy::Random) => self.random(),
            Some(PeerStrategy::WeightedRandom) => self.weighted_random(),
            Some(PeerStrategy::Best) => self.top_score(),
            Some(PeerStrategy::Avg) => self.avg_score(),
        }
    }

    /// Tells whether a choice by scores is possible.
    pub fn can_weigh(&self) -> (r: bool)
        ensures
            r == weighable(self@),
    {
        if self.details.len() <= 1 {
            return true;
        }
        if self.total_score <= 1 {
            return false;
        }
        let ghost s = self.details@;
        let ghost most = self.total_score - 1;
        let mut sum: u64 = 0;
        let mut i: usize = 0;
        while i < self.details.len()
            invariant
                i <= self.details.len(),
                s == self.details@,
                most == self.total_score - 1,
                self.details@.len() > 1,
                self.total_score > 1,
                sum == score_sum(s.take(i as int)),
                forall|k: int| 0 <= k < i ==> score_sum(#[trigger] s.take(k + 1)) <= u64::MAX,
            decreases self.details.len() - i,
        {
            if sum >= self.total_score {
                assert forall|k: int|
                    0 <= k < s.len() && score_sum(s.take(k)) <= most implies score_sum(
                    #[trigger] s.take(k + 1),
                ) <= u64::MAX by {
                    if k >= i {
                        lemma_score_sum_monotone(s, i as int, k);
                    }
                }
                return true;
            }
            proof {
                lemma_score_sum_take(s, i as int);
            }
            match sum.checked_add(self.details[i].score()) {
                Some(more) => {
                    sum = more;
                },
                None => {
                    assert(score_sum(s.take(i as int)) <= most);
                    assert(score_sum(s.take(i as int + 1)) > u64::MAX);
                    return false;
                },
            }
            i += 1;
        }
        true
    }

    /// Tells whether a choice by the strategy that is in effect is possible.
    pub fn can_select(&self) -> (r: bool)
        ensures
            r == selectable(self@),
    {
        match self.effective_strategy() {
            Some(PeerStrategy::WeightedRandom) => self.can_weigh(),
            _ => true,
        }
    }

    /// Any of the known peers. Which of them it is, is left to chance.
    pub fn random(&self) -> (r: Option<PeerId>)
        ensures
            any_choice(self@.details, r),
    {
        match choose_from_iter(&self.details) {
            Some(peer) => {
                proof {
                    let i = choose|i: int| 0 <= i < self.details@.len() && self.details@[i] == *peer;
                    assert(ids(self.details@)[i] == peer.peer_info.peer_id);
                }
                Some(peer.peer_id())
            },
            None => None,
        }
    }

    /// The peer that is left over when, from the first one on, each next peer takes the place of the
    /// top one unless `holds` tells that the top one holds its place.
    fn top_one<F>(&self, holds: F) -> (r: Option<PeerId>) where
        F: Fn(&PeerDetail, &PeerDetail) -> bool,

        requires
            forall|i: int, j: int|
                0 <= i < j < self@.details.len() ==> #[trigger] call_requires(
                    holds,
                    (&self@.details[i], &self@.details[j]),
                ),
        ensures
            match r {
                Some(id) => exists|tops: Seq<int>|
                    {
                        &&& #[trigger] are_tops(holds, self@.details, tops)
                        &&& tops.len() == self@.details.len()
                        &&& id == self@.details[tops.last()].peer_info.peer_id
                    },
                None => self@.details.len() == 0,
            },
    {
        if self.details.len() == 0 {
            return None;
        }
        let ghost s = self@.details;
        let ghost mut tops: Seq<int> = seq![0];
        let mut top: usize = 0;
        let mut i: usize = 1;
        while i < self.details.len()
            invariant
                1 <= i <= self.details.len(),
                s == self.details@,
                forall|a: int, b: int|
                    0 <= a < b < s.len() ==> #[trigger] call_requires(holds, (&s[a], &s[b])),
                top < i,
                are_tops(holds, s, tops),
                tops.len() == i,
                tops.last() == top,
            decreases self.details.len() - i,
        {
            assert(call_requires(holds, (&s[top as int], &s[i as int])));
            if !holds(&self.details[top], &self.details[i]) {
                top = i;
            }
            proof {
                let longer = tops.push(top as int);
                assert forall|k: int| 0 < k < longer.len() implies top_moves(
                    holds,
                    s,
                    longer[k - 1],
                    k,
                    #[trigger] longer[k],
                ) by {
                    if k < tops.len() {
                        assert(top_moves(holds, s, tops[k - 1], k, tops[k]));
                    }
                }
                tops = longer;
            }
            i += 1;
        }
        assert(are_tops(holds, self@.details, tops));
        Some(self.details[top].peer_id())
    }

    /// The first of the peers with the highest score.
    pub fn top_score(&self) -> (r: Option<PeerId>)
        ensures
            top_choice(self@.details, by_score(), r),
    {
        let r = self.top_one(outscores);
        proof {
            let s = self@.details;
            if let Some(id) = r {
                let tops = choose|tops: Seq<int>|
                    {
                        &&& #[trigger] are_tops(outscores, s, tops)
                        &&& tops.len() == s.len()
                        &&& id == s[tops.last()].peer_info.peer_id
                    };
                lemma_top_is_highest(outscores, s, tops, by_score());
                assert(s.take(s.len() as int) =~= s);
            }
        }
        r
    }

    /// The first of the peers with the highest average score.
    pub fn avg_score(&self) -> (r: Option<PeerId>)
        ensures
            top_choice(self@.details, by_avg_score(), r),
    {
        let r = self.top_one(outscores_on_average);
        proof {
            let s = self@.details;
            if let Some(id) = r {
                let tops = choose|tops: Seq<int>|
                    {
                        &&& #[trigger] are_tops(outscores_on_average, s, tops)
                        &&& tops.len() == s.len()
                        &&& id == s[tops.last()].peer_info.peer_id
                    };
                lemma_top_is_highest(outscores_on_average, s, tops, by_avg_score());
                assert(s.take(s.len() as int) =~= s);
            }
        }
        r
    }

    /// The peer that a number drawn at random falls to, where the peers' scores are laid end to
    /// end from zero on. The number is at least one and below the total of the scores.
    pub fn weighted_random(&self) -> (r: Option<PeerId>)
        requires
            weighable(self@),
        ensures
            weighted_random_choice(self@, r),
    {
        if self.is_empty() {
            return None;
        }
        if self.len() == 1 {
            return Some(self.details[0].peer_id());
        }
        let random_score = draw_below(1, self.total_score);
        self.weighted_pick(random_score)
    }

    /// The peer that `random_score` falls to, where the peers' scores are laid end to end from
    /// zero on, if it falls to any.
    pub fn weighted_pick(&self, random_score: u64) -> (r: Option<PeerId>)
        requires
            sums_fit(self@.details, random_score as int),
        ensures
            weighted_choice(self@.details, random_score as int, r),
    {
        let ghost s = self.details@;
        let mut tmp_score: u64 = 0;
        let mut i: usize = 0;
        while i < self.details.len()
            invariant
                i <= self.details.len(),
                s == self.details@,
                sums_fit(s, random_score as int),
                tmp_score == score_sum(s.take(i as int)),
                tmp_score <= random_score,
            decreases self.details.len() - i,
        {
            proof {
                lemma_score_sum_take(s, i as int);
                assert(score_sum(s.take(i as int + 1)) <= u64::MAX);
            }
            tmp_score += self.details[i].score();
            if tmp_score > random_score {
                assert(falls_to(s, random_score as int, i as int));
                return Some(self.details[i].peer_id());
            }
            i += 1;
        }
        assert(s.take(s.len() as int) =~= s);
        None
    }

    /// What any of the known peers offers. Which of them it is, is left to chance.
    pub fn random_peer(&self) -> (r: Option<PeerInfo>)
        ensures
            match r {
                Some(peer) => infos(self@.details).contains(peer),
                None => self@.details.len() == 0,
            },
    {
        match choose_from_iter(&self.details) {
            Some(peer) => {
                proof {
                    let i = choose|i: int| 0 <= i < self.details@.len() && self.details@[i] == *peer;
                    assert(infos(self.details@)[i] == peer.peer_info);
                }
                Some(peer.peer_info)
            },
            None => None,
        }
    }

    /// What the first peer offers.
    pub fn first_peer(&self) -> (r: Option<PeerInfo>)
        ensures
            r == if self@.details.len() > 0 {
                Some(self@.details[0].peer_info)
            } else {
                None
            },
    {
        if self.details.len() > 0 {
            Some(self.details[0].peer_info)
        } else {
            None
        }
    }

    /// The peers' identities and scores.
    pub fn scores(&self) -> (r: Vec<(PeerId, u64)>)
        ensures
            r@ == scores(self@.details),
            r@.len() == self@.details.len(),
            forall|i: int|
                0 <= i < r@.len() ==> #[trigger] r@[i] == (
                    self@.details[i].peer_info.peer_id,
                    self@.details[i].score_counter.score,
                ),
    {
        let ghost all = scores(self.details@);
        let mut list: Vec<(PeerId, u64)> = Vec::new();
        let mut i: usize = 0;
        while i < self.details.len()
            invariant
                i <= self.details.len(),
                all == scores(self.details@),
                list@ == all.take(i as int),
            decreases self.details.len() - i,
        {
            assert(all.take(i as int + 1) =~= all.take(i as int).push(all[i as int]));
            list.push((self.details[i].peer_id(), self.details[i].score()));
            i += 1;
        }
        assert(all.take(all.len() as int) =~= all);
        list
    }

    /// Describes the selector.
    pub fn to_text(&self) -> (r: String)
        ensures
            r@ == self@.description(),
    {
        let text = "peer len : ".to_string().concat(decimal_text(self.len() as u64).as_str());
        let text = text.concat(", strategy : ").concat(self.strategy.variant_text());
        text.concat(", total score : ").concat(decimal_text(self.total_score).as_str())
    }

    /// Tells whether no peer is known.
    pub fn is_empty(&self) -> (r: bool)
        ensures
            r == (self@.details.len() == 0),
    {
        self.details.is_empty()
    }

    /// How many peers are known.
    pub fn len(&self) -> (r: usize)
        ensures
            r == self@.details.len(),
    {
        self.details.len()
    }
}

} // verus!
