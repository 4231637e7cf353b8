//! What holds of the peers, of the choices among them, and of a synchronization, whatever happens.

use crate::full_sync::{with_peers, FullSyncView, SyncActionView, SyncEventView, SyncPhaseView};
use crate::lemmas::{lemma_filter_has, lemma_filter_snoc};
use crate::order::{
    descending_order, has_rank, lemma_stable_sort_permutes, of_rank, Ranked,
};
use crate::peer::PeerDetail;
use crate::roster::{
    above, added_or_updated, among, best_infos, better_infos, distinct, falls_to, first_highest,
    highest, ids, infos, lemma_highest, lemma_marked_has, lemma_position, lemma_position_at,
    lemma_score_sum_monotone, lemma_score_sum_take, marked, position, rated, rescored, retained,
    score_sum, scores, weighted_choice,
};
use crate::score::ScoreCounter;
use crate::search::{are_candidates, helpers, law_search_outcome, leads, SearchView};
use crate::selector::{weighted_random_choice, PeerSelectorView};
use crate::strategy::PeerStrategy;
use crate::target::{backers, first_offer, is_majority_target, majority, offers, peer_ids};
use crate::types::{ChainStatus, HashValue, PeerId, PeerInfo, SyncTargetView};
use vstd::prelude::*;

verus! {

/// The running total is the sum of the scores.
pub open spec fn consistent(view: PeerSelectorView) -> bool {
    view.total_score == score_sum(view.details)
}

/// The sum of the scores when one entry is replaced.
proof fn lemma_score_sum_update(s: Seq<PeerDetail>, i: int, detail: PeerDetail)
    requires
        0 <= i < s.len(),
    ensures
        score_sum(s.update(i, detail)) == score_sum(s) - s[i].score_counter.score
            + detail.score_counter.score,
    decreases s.len(),
{
    let t = s.update(i, detail);
    if i == s.len() - 1 {
        assert(t.drop_last() =~= s.drop_last());
    } else {
        assert(t.drop_last() =~= s.drop_last().update(i, detail));
        lemma_score_sum_update(s.drop_last(), i, detail);
    }
}

/// The sum of the scores when one entry is taken out.
proof fn lemma_score_sum_remove(s: Seq<PeerDetail>, i: int)
    requires
        0 <= i < s.len(),
    ensures
        score_sum(s.remove(i)) == score_sum(s) - s[i].score_counter.score,
    decreases s.len(),
{
    let t = s.remove(i);
    if i == s.len() - 1 {
        assert(t =~= s.drop_last());
    } else {
        assert(t.drop_last() =~= s.drop_last().remove(i));
        lemma_score_sum_remove(s.drop_last(), i);
    }
}

/// The scores of a part of the peers add up to no more than those of all.
proof fn lemma_score_sum_filter(s: Seq<PeerDetail>, pred: spec_fn(PeerDetail) -> bool)
    ensures
        score_sum(s.filter(pred)) <= score_sum(s),
    decreases s.len(),
{
    if s.len() == 0 {
        reveal(Seq::filter);
    } else {
        lemma_filter_snoc(s, pred);
        lemma_score_sum_filter(s.drop_last(), pred);
        let t = s.drop_last().filter(pred);
        assert(t.push(s.last()).drop_last() =~= t);
    }
}

/// Forgetting a peer keeps the running total right.
pub proof fn law_without_peer_keeps_total(view: PeerSelectorView, id: PeerId)
    requires
        consistent(view),
    ensures
        consistent(view.without_peer(id)),
{
    lemma_position(view.details, id);
    let i = position(view.details, id);
    if i < view.details.len() {
        lemma_score_sum_remove(view.details, i);
    }
}

/// Forgetting all but some peers keeps the running total right, and puts a wrong one right where
/// the scores of the peers that stay add up to a `u64`.
pub proof fn law_only_peers_keeps_total(view: PeerSelectorView, peers: Seq<PeerId>)
    ensures
        consistent(view) ==> consistent(view.only_peers(peers)),
        score_sum(retained(view.details, peers)) <= u64::MAX ==> consistent(view.only_peers(peers)),
{
    lemma_score_sum_filter(view.details, among(peers));
}

/// Taking over what a known peer offers keeps the running total right.
pub proof fn law_update_keeps_total(view: PeerSelectorView, info: PeerInfo)
    requires
        consistent(view),
        ids(view.details).contains(info.peer_id),
    ensures
        consistent(view.with_peer(info)),
{
    lemma_position(view.details, info.peer_id);
    let i = position(view.details, info.peer_id);
    lemma_score_sum_update(
        view.details,
        i,
        PeerDetail { peer_info: info, score_counter: view.details[i].score_counter },
    );
}

/// Changing the score of a known peer keeps the running total right, where no two entries are about
/// one peer and neither the score nor the total wraps around.
pub proof fn law_score_change_keeps_total(view: PeerSelectorView, id: PeerId, change: i64)
    requires
        consistent(view),
        distinct(view.details),
        ids(view.details).contains(id),
        0 <= view.details[position(view.details, id)].score_counter.score + change,
        view.total_score + change <= u64::MAX,
    ensures
        consistent(view.with_score_change(id, change)),
{
    let s = view.details;
    lemma_position(s, id);
    let i = position(s, id);
    let t = rescored(s, id, change);
    assert(t =~= s.update(i, t[i])) by {
        assert forall|j: int| 0 <= j < s.len() && j != i implies t[j] == s[j] by {
            assert(ids(s)[j] != ids(s)[i]);
        }
    }
    lemma_score_sum_update(s, i, t[i]);
    lemma_score_sum_remove(s, i);
    assert(s[i].score_counter.score <= score_sum(s));
}

/// Taking over what a peer offers adds no second entry about it.
pub proof fn law_with_peer_keeps_distinct(view: PeerSelectorView, info: PeerInfo)
    requires
        distinct(view.details),
    ensures
        distinct(view.with_peer(info).details),
{
    let s = view.details;
    let t = view.with_peer(info).details;
    lemma_position(s, info.peer_id);
    let i = position(s, info.peer_id);
    if i < s.len() {
        assert(ids(t) =~= ids(s));
    } else {
        assert(ids(t) =~= ids(s).push(info.peer_id));
    }
}

/// A peer that was taken over is known with what it offers now. What is known of all other peers
/// stays.
pub proof fn law_with_peer_is_known(view: PeerSelectorView, info: PeerInfo, other: PeerId)
    ensures
        ({
            let s = view.details;
            let t = view.with_peer(info).details;
            let i = position(t, info.peer_id);
            &&& 0 <= i < t.len()
            &&& t[i].peer_info == info
            &&& other != info.peer_id ==> {
                &&& ids(t).contains(other) == ids(s).contains(other)
                &&& ids(s).contains(other) ==> t[position(t, other)] == s[position(s, other)]
            }
        }),
{
    let s = view.details;
    let t = view.with_peer(info).details;
    lemma_position(s, info.peer_id);
    lemma_position(s, other);
    lemma_position(t, other);
    let i = position(s, info.peer_id);
    assert forall|j: int| 0 <= j < i implies (#[trigger] t[j]).peer_info.peer_id != info.peer_id by {
        assert(t[j] == s[j]);
    }
    lemma_position_at(t, info.peer_id, i);
    if other != info.peer_id {
        let p = position(s, other);
        if p < s.len() {
            assert(p != i);
            assert(t[p] == s[p]);
            assert forall|j: int| 0 <= j < p implies (#[trigger] t[j]).peer_info.peer_id != other by {
                assert(s[j].peer_info.peer_id != other);
            }
            lemma_position_at(t, other, p);
        } else {
            assert forall|j: int| 0 <= j < t.len() implies (#[trigger] t[j]).peer_info.peer_id
                != other by {
                if j < s.len() {
                    assert(s[j].peer_info.peer_id != other);
                }
            }
            lemma_position_at(t, other, t.len() as int);
        }
    }
}

/// Taking over the same again changes nothing.
pub proof fn law_with_peer_is_idempotent(view: PeerSelectorView, info: PeerInfo)
    ensures
        view.with_peer(info).with_peer(info) == view.with_peer(info),
{
    let t = view.with_peer(info).details;
    law_with_peer_is_known(view, info, info.peer_id);
    let i = position(t, info.peer_id);
    assert(t.update(
        i,
        PeerDetail { peer_info: info, score_counter: t[i].score_counter },
    ) =~= t);
}

/// What two different peers offer can be taken over in either order: the entries and the running
/// total come out the same, though the entries may stand in another order.
pub proof fn law_order_of_peers_does_not_matter(
    view: PeerSelectorView,
    one: PeerInfo,
    other: PeerInfo,
)
    requires
        one.peer_id != other.peer_id,
    ensures
        view.with_peer(one).with_peer(other).details.to_multiset() == view.with_peer(
            other,
        ).with_peer(one).details.to_multiset(),
        view.with_peer(one).with_peer(other).total_score == view.with_peer(other).with_peer(
            one,
        ).total_score,
{
    broadcast use vstd::seq_lib::group_to_multiset_ensures;

    let s = view.details;
    lemma_position_after_other(s, one, other.peer_id);
    lemma_position_after_other(s, other, one.peer_id);
    lemma_position(s, one.peer_id);
    lemma_position(s, other.peer_id);
    let i = position(s, one.peer_id);
    let j = position(s, other.peer_id);
    let ab = view.with_peer(one).with_peer(other).details;
    let ba = view.with_peer(other).with_peer(one).details;
    let fresh = ScoreCounter { score: 1, times: 1 };
    if i < s.len() && j < s.len() {
        assert(ab =~= ba);
    } else if i < s.len() {
        assert(ab =~= ba);
    } else if j < s.len() {
        assert(ab =~= ba);
    } else {
        let x = PeerDetail { peer_info: one, score_counter: fresh };
        let y = PeerDetail { peer_info: other, score_counter: fresh };
        assert(ab =~= s.push(x).push(y));
        assert(ba =~= s.push(y).push(x));
        assert(ab.to_multiset() =~= ba.to_multiset());
    }
}

/// Taking over what one peer offers leaves the place of another one's entry. A peer that is not
/// known stays so.
proof fn lemma_position_after_other(s: Seq<PeerDetail>, info: PeerInfo, other: PeerId)
    requires
        other != info.peer_id,
    ensures
        ({
            let t = added_or_updated(s, info);
            position(t, other) == if position(s, other) < s.len() {
                position(s, other)
            } else {
                t.len() as int
            }
        }),
{
    let t = added_or_updated(s, info);
    lemma_position(s, info.peer_id);
    lemma_position(s, other);
    let p = position(s, other);
    let q = if p < s.len() {
        p
    } else {
        t.len() as int
    };
    assert forall|k: int| 0 <= k < q implies (#[trigger] t[k]).peer_info.peer_id != other by {
        if k < s.len() {
            assert(s[k].peer_info.peer_id != other);
        }
    }
    lemma_position_at(t, other, q);
}

/// A new peer that is forgotten again leaves the peers as they were.
pub proof fn law_add_then_remove(view: PeerSelectorView, info: PeerInfo)
    requires
        !ids(view.details).contains(info.peer_id),
    ensures
        view.with_peer(info).without_peer(info.peer_id).details == view.details,
{
    let s = view.details;
    let t = view.with_peer(info).details;
    lemma_position(s, info.peer_id);
    assert forall|j: int| 0 <= j < s.len() implies (#[trigger] t[j]).peer_info.peer_id
        != info.peer_id by {
        assert(s[j].peer_info.peer_id != info.peer_id);
    }
    lemma_position_at(t, info.peer_id, s.len() as int);
    assert(t.remove(s.len() as int) =~= s);
}

/// Where no two entries are about one peer, a peer that was forgotten is not known any more, all
/// others still are, and it stays so that no two entries are about one peer.
pub proof fn law_without_peer(view: PeerSelectorView, id: PeerId, other: PeerId)
    requires
        distinct(view.details),
    ensures
        ({
            let t = view.without_peer(id).details;
            &&& distinct(t)
            &&& !ids(t).contains(id)
            &&& other != id ==> ids(t).contains(other) == ids(view.details).contains(other)
        }),
{
    let s = view.details;
    let t = view.without_peer(id).details;
    lemma_position(s, id);
    let i = position(s, id);
    if i < s.len() {
        assert(ids(t) =~= ids(s).remove(i));
        assert(ids(s)[i] == id);
        if ids(t).contains(id) {
            let j = choose|j: int| 0 <= j < ids(t).len() && ids(t)[j] == id;
            if j < i {
                assert(ids(s)[j] == id);
            } else {
                assert(ids(s)[j + 1] == id);
            }
        }
        if other != id && ids(s).contains(other) {
            let j = choose|j: int| 0 <= j < ids(s).len() && ids(s)[j] == other;
            if j < i {
                assert(ids(t)[j] == other);
            } else {
                assert(ids(t)[j - 1] == other);
            }
        }
        if ids(t).contains(other) {
            let j = choose|j: int| 0 <= j < ids(t).len() && ids(t)[j] == other;
            if j < i {
                assert(ids(s)[j] == other);
            } else {
                assert(ids(s)[j + 1] == other);
            }
        }
        assert forall|a: int, b: int|
            0 <= a < ids(t).len() && 0 <= b < ids(t).len() && a != b implies ids(t)[a]
            != ids(t)[b] by {
            let x = if a < i {
                a
            } else {
                a + 1
            };
            let y = if b < i {
                b
            } else {
                b + 1
            };
            assert(ids(s)[x] == ids(t)[a]);
            assert(ids(s)[y] == ids(t)[b]);
        }
    }
}

/// After forgetting all but some peers, a peer is known if it was known and is one of them.
pub proof fn law_only_peers(view: PeerSelectorView, peers: Seq<PeerId>, id: PeerId)
    ensures
        ids(view.only_peers(peers).details).contains(id) <==> ids(view.details).contains(id)
            && peers.contains(id),
{
    let s = view.details;
    let t = retained(s, peers);
    if ids(t).contains(id) {
        let j = choose|j: int| 0 <= j < ids(t).len() && ids(t)[j] == id;
        assert(t.contains(t[j]));
        lemma_filter_has(s, among(peers), t[j]);
        let k = choose|k: int| 0 <= k < s.len() && s[k] == t[j];
        assert(ids(s)[k] == id);
    }
    if ids(s).contains(id) && peers.contains(id) {
        let k = choose|k: int| 0 <= k < ids(s).len() && ids(s)[k] == id;
        assert(s.contains(s[k]));
        lemma_filter_has(s, among(peers), s[k]);
        let j = choose|j: int| 0 <= j < t.len() && t[j] == s[k];
        assert(ids(t)[j] == id);
    }
}

/// A filter changes nothing where every item passes.
proof fn lemma_filter_all<A>(s: Seq<A>, pred: spec_fn(A) -> bool)
    requires
        forall|i: int| 0 <= i < s.len() ==> pred(#[trigger] s[i]),
    ensures
        s.filter(pred) == s,
    decreases s.len(),
{
    reveal(Seq::filter);
    if s.len() > 0 {
        assert forall|i: int| 0 <= i < s.drop_last().len() implies pred(#[trigger] s.drop_last()[i])
            by {
            assert(pred(s[i]));
        }
        lemma_filter_all(s.drop_last(), pred);
        assert(pred(s[s.len() - 1]));
        assert(s.drop_last().push(s.last()) =~= s);
    } else {
        assert(s.filter(pred) =~= s);
    }
}

/// Forgetting all but the same peers again changes nothing.
pub proof fn law_only_peers_is_idempotent(view: PeerSelectorView, peers: Seq<PeerId>)
    ensures
        view.only_peers(peers).only_peers(peers) == view.only_peers(peers),
{
    let t = retained(view.details, peers);
    assert forall|i: int| 0 <= i < t.len() implies among(peers)(#[trigger] t[i]) by {
        assert(t.contains(t[i]));
        lemma_filter_has(view.details, among(peers), t[i]);
    }
    lemma_filter_all(t, among(peers));
}

/// Forgetting all but some peers keeps it so that no two entries are about one peer.
pub proof fn law_only_peers_keeps_distinct(view: PeerSelectorView, peers: Seq<PeerId>)
    requires
        distinct(view.details),
    ensures
        distinct(view.only_peers(peers).details),
{
    lemma_filter_keeps_distinct(view.details, among(peers));
}

/// A part of distinct entries is distinct.
proof fn lemma_filter_keeps_distinct(s: Seq<PeerDetail>, pred: spec_fn(PeerDetail) -> bool)
    requires
        distinct(s),
    ensures
        distinct(s.filter(pred)),
    decreases s.len(),
{
    reveal(Seq::filter);
    if s.len() > 0 {
        let u = s.drop_last();
        assert(ids(u) =~= ids(s).drop_last());
        lemma_filter_keeps_distinct(u, pred);
        let t = u.filter(pred);
        if pred(s.last()) {
            let x = s.last().peer_info.peer_id;
            assert(ids(t.push(s.last())) =~= ids(t).push(x));
            if ids(t).contains(x) {
                let j = choose|j: int| 0 <= j < ids(t).len() && ids(t)[j] == x;
                assert(t.contains(t[j]));
                lemma_filter_has(u, pred, t[j]);
                let k = choose|k: int| 0 <= k < u.len() && u[k] == t[j];
                assert(ids(s)[k] == ids(s)[s.len() - 1]);
            }
        }
    }
}

/// The lists of identities, of scores and of what the peers offer speak of the same peers in the
/// same order. The first peer is the first of each, and each is as long as there are peers.
pub proof fn law_listings_agree(view: PeerSelectorView)
    ensures
        scores(view.details).map_values(|entry: (PeerId, u64)| entry.0) == ids(view.details),
        infos(view.details).map_values(|peer: PeerInfo| peer.peer_id) == ids(view.details),
        scores(view.details).len() == view.details.len(),
        ids(view.details).len() == view.details.len(),
        view.details.len() > 0 ==> ids(view.details).first()
            == view.details[0].peer_info.peer_id,
        score_sum(view.details) == sum_of(scores(view.details)),
{
    assert(scores(view.details).map_values(|entry: (PeerId, u64)| entry.0) =~= ids(view.details));
    assert(infos(view.details).map_values(|peer: PeerInfo| peer.peer_id) =~= ids(view.details));
    lemma_scores_add_up(view.details);
}

/// The sum of the scores in a list of identities and scores.
pub open spec fn sum_of(entries: Seq<(PeerId, u64)>) -> nat
    decreases entries.len(),
{
    if entries.len() == 0 {
        0
    } else {
        sum_of(entries.drop_last()) + entries.last().1 as nat
    }
}

/// The listed scores add up to the sum of the scores.
proof fn lemma_scores_add_up(s: Seq<PeerDetail>)
    ensures
        score_sum(s) == sum_of(scores(s)),
    decreases s.len(),
{
    if s.len() > 0 {
        lemma_scores_add_up(s.drop_last());
        assert(scores(s).drop_last() =~= scores(s.drop_last()));
    }
}

/// What handles on the same peers have in common. Each handle has a strategy of its own.
pub struct SharedPeers {
    pub details: Seq<PeerDetail>,
    pub total_score: u64,
}

/// A call that changes the peers.
pub enum PeerCall {
    AddOrUpdate(PeerInfo),
    Score(PeerId, i64),
    Retain(Seq<PeerId>),
    Remove(PeerId),
}

/// The peers after the call.
pub open spec fn after_call(view: PeerSelectorView, call: PeerCall) -> PeerSelectorView {
    match call {
        PeerCall::AddOrUpdate(info) => view.with_peer(info),
        PeerCall::Score(id, change) => view.with_score_change(id, change),
        PeerCall::Retain(peers) => view.only_peers(peers),
        PeerCall::Remove(id) => view.without_peer(id),
    }
}

impl SharedPeers {
    /// The peers as a handle with the given strategy has them.
    pub open spec fn seen_with(self, strategy: PeerStrategy) -> PeerSelectorView {
        PeerSelectorView { details: self.details, total_score: self.total_score, strategy }
    }

    /// The peers after the calls, each made through a handle with the given strategy.
    pub open spec fn after_calls(self, calls: Seq<(PeerStrategy, PeerCall)>) -> SharedPeers
        decreases calls.len(),
    {
        if calls.len() == 0 {
            self
        } else {
            let before = self.after_calls(calls.drop_last());
            let view = after_call(before.seen_with(calls.last().0), calls.last().1);
            SharedPeers { details: view.details, total_score: view.total_score }
        }
    }
}

/// Handles on the same peers agree on them and on their scores, through whichever handles the peers
/// were changed, and keep their own strategies. It makes no difference to the peers through which
/// handles the calls were made.
pub proof fn law_handles_share(
    shared: SharedPeers,
    calls: Seq<(PeerStrategy, PeerCall)>,
    same_calls: Seq<(PeerStrategy, PeerCall)>,
    one: PeerStrategy,
    other: PeerStrategy,
)
    requires
        calls.len() == same_calls.len(),
        forall|i: int| 0 <= i < calls.len() ==> (#[trigger] calls[i]).1 == same_calls[i].1,
    ensures
        ({
            let end = shared.after_calls(calls);
            &&& scores(end.seen_with(one).details) == scores(end.seen_with(other).details)
            &&& infos(end.seen_with(one).details) == infos(end.seen_with(other).details)
            &&& end.seen_with(one).total_score == end.seen_with(other).total_score
            &&& end.seen_with(one).strategy == one
            &&& end.seen_with(other).strategy == other
            &&& end == shared.after_calls(same_calls)
        }),
    decreases calls.len(),
{
    if calls.len() > 0 {
        let last = calls.len() - 1;
        assert(calls[last].1 == same_calls[last].1);
        assert forall|i: int| 0 <= i < last implies (#[trigger] calls.drop_last()[i]).1
            == same_calls.drop_last()[i].1 by {
            assert(calls[i].1 == same_calls[i].1);
        }
        law_handles_share(shared, calls.drop_last(), same_calls.drop_last(), one, other);
    }
}

/// A change of scores changes neither which peers are known nor what they offer.
pub proof fn law_score_change_keeps_peers(view: PeerSelectorView, id: PeerId, change: i64)
    ensures
        infos(view.with_score_change(id, change).details) == infos(view.details),
        ids(view.with_score_change(id, change).details) == ids(view.details),
{
    let t = view.with_score_change(id, change).details;
    assert(infos(t) =~= infos(view.details));
    assert(ids(t) =~= ids(view.details));
}

/// A score change and its opposite leave the scores as they were.
pub proof fn law_score_changes_cancel(view: PeerSelectorView, id: PeerId, change: i64)
    requires
        change > i64::MIN,
    ensures
        ({
            let end = view.with_score_change(id, change).with_score_change(id, (-change) as i64);
            &&& end.total_score == view.total_score
            &&& end.details.len() == view.details.len()
            &&& forall|i: int|
                0 <= i < view.details.len() ==> (#[trigger] end.details[i]).score_counter.score
                    == view.details[i].score_counter.score
        }),
{
    let end = view.with_score_change(id, change).with_score_change(id, (-change) as i64);
    assert forall|i: int| 0 <= i < view.details.len() implies (
    #[trigger] end.details[i]).score_counter.score == view.details[i].score_counter.score by {}
}

/// The scores add up to the same in any order.
proof fn lemma_score_sum_permutes(one: Seq<PeerDetail>, other: Seq<PeerDetail>)
    requires
        one.to_multiset() == other.to_multiset(),
    ensures
        score_sum(one) == score_sum(other),
    decreases one.len(),
{
    broadcast use vstd::seq_lib::group_to_multiset_ensures;

    if one.len() > 0 {
        let x = one.last();
        assert(one.to_multiset().count(x) > 0) by {
            assert(one.contains(one[one.len() - 1]));
        }
        assert(other.contains(x));
        let i = choose|i: int| 0 <= i < other.len() && other[i] == x;
        lemma_score_sum_remove(other, i);
        assert(one.drop_last() =~= one.remove(one.len() - 1));
        assert(one.drop_last().to_multiset() =~= other.remove(i).to_multiset());
        lemma_score_sum_permutes(one.drop_last(), other.remove(i));
    } else {
        assert(other.to_multiset().len() == 0);
    }
}

/// Entries that are distinct stay so in any order.
proof fn lemma_permutation_keeps_distinct(one: Seq<PeerDetail>, other: Seq<PeerDetail>)
    requires
        one.to_multiset() == other.to_multiset(),
        distinct(one),
    ensures
        distinct(other),
{
    broadcast use vstd::seq_lib::group_to_multiset_ensures;

    assert(one.no_duplicates()) by {
        assert forall|i: int, j: int| 0 <= i < one.len() && 0 <= j < one.len() && i != j implies
            one[i] != one[j] by {
            assert(ids(one)[i] != ids(one)[j]);
        }
    }
    one.lemma_multiset_has_no_duplicates();
    other.lemma_multiset_has_no_duplicates_conv();
    assert forall|i: int, j: int|
        0 <= i < ids(other).len() && 0 <= j < ids(other).len() && i != j implies ids(other)[i]
        != ids(other)[j] by {
        assert(other.contains(other[i]) && other.contains(other[j]));
        assert(other.to_multiset().count(other[i]) > 0 && other.to_multiset().count(other[j]) > 0);
        assert(one.contains(other[i]) && one.contains(other[j]));
        let x = choose|x: int| 0 <= x < one.len() && one[x] == other[i];
        let y = choose|y: int| 0 <= y < one.len() && one[y] == other[j];
        assert(other[i] != other[j]);
        assert(ids(one)[x] != ids(one)[y]);
    }
}

/// Ordering the peers loses none of them, changes no score, and keeps it so that no two entries are
/// about one peer.
pub proof fn law_order_keeps_peers(before: Seq<PeerDetail>, after: Seq<PeerDetail>)
    requires
        descending_order(before, after),
    ensures
        after.to_multiset() == before.to_multiset(),
        score_sum(after) == score_sum(before),
        distinct(before) ==> distinct(after),
{
    lemma_stable_sort_permutes(before, after.reverse());
    after.lemma_reverse_to_multiset();
    lemma_score_sum_permutes(before, after);
    if distinct(before) {
        lemma_permutation_keeps_distinct(before, after);
    }
}

/// New peers with different identities make distinct entries.
pub proof fn law_new_is_distinct(reputations: Seq<(PeerId, u64)>, peers: Seq<PeerInfo>)
    requires
        peer_ids(peers).no_duplicates(),
    ensures
        distinct(rated(reputations, peers)),
{
    assert(ids(rated(reputations, peers)) =~= peer_ids(peers));
}

/// There are best peers if and only if there are better ones, and each of the best is one of the
/// better ones. The best peers' chains are all equally difficult, and none is more difficult.
pub proof fn law_bests_are_betters(s: Seq<PeerDetail>, min_difficulty: nat)
    ensures
        best_infos(s, min_difficulty) is Some <==> better_infos(s, min_difficulty) is Some,
        best_infos(s, min_difficulty) matches Some(bests) ==> {
            &&& bests.len() > 0
            &&& forall|peer: PeerInfo| #[trigger]
                bests.contains(peer) <==> infos(s).contains(peer) && peer.difficulty() == highest(s)
            &&& forall|peer: PeerInfo| #[trigger]
                bests.contains(peer) ==> better_infos(s, min_difficulty)->0.contains(peer)
            &&& forall|peer: PeerInfo| #[trigger]
                infos(s).contains(peer) ==> peer.difficulty() <= highest(s)
        },
{
    let betters = s.filter(above(min_difficulty));
    if s.len() == 0 {
        reveal(Seq::filter);
    } else {
        lemma_highest(s);
        if highest(s) <= min_difficulty {
            if betters.len() > 0 {
                assert(betters.contains(betters[0]));
                lemma_filter_has(s, above(min_difficulty), betters[0]);
                let k = choose|k: int| 0 <= k < s.len() && s[k] == betters[0];
                assert(s[k].rank() <= highest(s));
            }
        } else {
            let k = choose|k: int| 0 <= k < s.len() && (#[trigger] s[k]).rank() == highest(s);
            assert(s.contains(s[k]));
            lemma_filter_has(s, above(min_difficulty), s[k]);
            let bests = best_infos(s, min_difficulty)->0;
            let group = of_rank(s, highest(s));
            lemma_filter_has(s, has_rank(highest(s)), s[k]);
            assert(group.contains(s[k]));
            assert forall|peer: PeerInfo| #[trigger] bests.contains(peer) implies {
                &&& infos(s).contains(peer)
                &&& peer.difficulty() == highest(s)
                &&& infos(betters).contains(peer)
            } by {
                let j = choose|j: int| 0 <= j < bests.len() && bests[j] == peer;
                let detail = group[group.len() - 1 - j];
                assert(group.contains(detail));
                lemma_filter_has(s, has_rank(highest(s)), detail);
                let i = choose|i: int| 0 <= i < s.len() && s[i] == detail;
                assert(infos(s)[i] == peer);
                lemma_filter_has(s, above(min_difficulty), detail);
                let b = choose|b: int| 0 <= b < betters.len() && betters[b] == detail;
                assert(infos(betters)[b] == peer);
            }
            assert forall|peer: PeerInfo|
                infos(s).contains(peer) && peer.difficulty() == highest(
                    s,
                ) implies #[trigger] bests.contains(peer) by {
                let i = choose|i: int| 0 <= i < infos(s).len() && infos(s)[i] == peer;
                assert(s.contains(s[i]));
                lemma_filter_has(s, has_rank(highest(s)), s[i]);
                let j = choose|j: int| 0 <= j < group.len() && group[j] == s[i];
                assert(bests[group.len() - 1 - j] == peer);
            }
            assert forall|peer: PeerInfo| #[trigger] infos(s).contains(peer) implies
                peer.difficulty() <= highest(s) by {
                let i = choose|i: int| 0 <= i < infos(s).len() && infos(s)[i] == peer;
                assert(s[i].rank() <= highest(s));
            }
        }
    }
}

/// A number falls to one entry at most.
pub proof fn law_falls_to_one(s: Seq<PeerDetail>, x: int, one: int, other: int)
    requires
        falls_to(s, x, one),
        falls_to(s, x, other),
    ensures
        one == other,
{
    if one < other {
        lemma_score_sum_monotone(s, one + 1, other);
    }
    if other < one {
        lemma_score_sum_monotone(s, other + 1, one);
    }
}

/// As many numbers fall to an entry as its score says, one after the other.
pub proof fn law_share_is_score(s: Seq<PeerDetail>, k: int, x: int)
    requires
        0 <= k < s.len(),
    ensures
        falls_to(s, x, k) <==> score_sum(s.take(k)) <= x < score_sum(s.take(k))
            + s[k].score_counter.score,
{
    lemma_score_sum_take(s, k);
}

/// Every number below the sum of the scores of the first `n` entries falls to an entry.
pub proof fn law_every_number_falls(s: Seq<PeerDetail>, x: int, n: int) -> (k: int)
    requires
        0 <= n <= s.len(),
        0 <= x < score_sum(s.take(n)),
    ensures
        falls_to(s, x, k),
    decreases n,
{
    if n == 0 {
        assert(s.take(0).len() == 0);
        0
    } else {
        lemma_score_sum_take(s, n - 1);
        if x < score_sum(s.take(n - 1)) {
            law_every_number_falls(s, x, n - 1)
        } else {
            n - 1
        }
    }
}

/// Where the running total is right, a choice by scores among any peers picks one of them.
pub proof fn law_weighted_choice_succeeds(view: PeerSelectorView, choice: Option<PeerId>)
    requires
        consistent(view),
        view.details.len() > 0,
        weighted_random_choice(view, choice),
    ensures
        choice matches Some(id) && ids(view.details).contains(id),
{
    let s = view.details;
    if s.len() == 1 {
        assert(ids(s)[0] == s[0].peer_info.peer_id);
    } else {
        let x = choose|x: int|
            1 <= x < view.total_score && #[trigger] weighted_choice(s, x, choice);
        if let Some(id) = choice {
            let k = choose|k: int| #[trigger] falls_to(s, x, k) && id == s[k].peer_info.peer_id;
            assert(ids(s)[k] == id);
        }
    }
}

/// Where the running total is right, every entry with a score of at least two, and every one but
/// the first with a score of at least one, can be picked by its score.
pub proof fn law_every_score_counts(view: PeerSelectorView, k: int)
    requires
        consistent(view),
        0 <= k < view.details.len(),
        view.details[k].score_counter.score >= 2 || (view.details[k].score_counter.score >= 1
            && score_sum(view.details.take(k)) >= 1),
        view.details.len() > 1,
    ensures
        weighted_random_choice(view, Some(view.details[k].peer_info.peer_id)),
{
    let s = view.details;
    lemma_score_sum_take(s, k);
    lemma_score_sum_monotone(s, k + 1, s.len() as int);
    assert(s.take(s.len() as int) =~= s);
    let x = score_sum(s.take(k)) + s[k].score_counter.score - 1;
    assert(falls_to(s, x, k));
    assert(weighted_choice(s, x, Some(s[k].peer_info.peer_id)));
}

/// There is one first entry with the highest measure.
pub proof fn law_first_highest_is_unique(
    s: Seq<PeerDetail>,
    measure: spec_fn(PeerDetail) -> int,
    one: int,
    other: int,
)
    requires
        first_highest(s, measure, one),
        first_highest(s, measure, other),
    ensures
        one == other,
{
    if one < other {
        assert(measure(s[one]) < measure(s[other]));
    }
    if other < one {
        assert(measure(s[other]) < measure(s[one]));
    }
}

/// The best target is as difficult as any chain that is known, which is above the bound. Its peers
/// are the known peers with that chain, and there is at least one.
pub proof fn law_best_target_is_best(
    s: Seq<PeerDetail>,
    min_difficulty: nat,
    target: SyncTargetView,
)
    requires
        best_infos(s, min_difficulty) matches Some(bests) && is_majority_target(bests, target),
    ensures
        target.block_info.total_difficulty@ == highest(s),
        highest(s) > min_difficulty,
        target.peers.len() > 0,
        forall|id: PeerId| #[trigger]
            target.peers.contains(id) ==> exists|peer: PeerInfo|
                {
                    &&& #[trigger] infos(s).contains(peer)
                    &&& peer.peer_id == id
                    &&& target.block_info == peer.status().info
                    &&& target.target_id == peer.status().head.spec_id_and_number()
                },
{
    let bests = best_infos(s, min_difficulty)->0;
    law_bests_are_betters(s, min_difficulty);
    let i = choose|i: int| #[trigger]
        majority(bests, i) && target == SyncTargetView::of_status(
            bests[i].status(),
            backers(bests, bests[i].status()),
        );
    let status = bests[i].status();
    assert(first_offer(bests, status, i));
    assert(bests.contains(bests[i]));
    let group = bests.filter(offers(status));
    lemma_filter_has(bests, offers(status), bests[i]);
    assert(group.len() > 0);
    assert forall|id: PeerId| #[trigger] target.peers.contains(id) implies exists|peer: PeerInfo|
        {
            &&& #[trigger] infos(s).contains(peer)
            &&& peer.peer_id == id
            &&& target.block_info == peer.status().info
            &&& target.target_id == peer.status().head.spec_id_and_number()
        } by {
        let j = choose|j: int| 0 <= j < target.peers.len() && target.peers[j] == id;
        let peer = group[j];
        assert(group.contains(peer));
        lemma_filter_has(bests, offers(status), peer);
        assert(bests.contains(peer));
        assert(infos(s).contains(peer));
    }
}

/// Where all peers offer the same chain, that is the target, and all of them are its peers.
pub proof fn law_unanimous_target(peers: Seq<PeerInfo>, status: ChainStatus, target: SyncTargetView)
    requires
        forall|i: int| 0 <= i < peers.len() ==> (#[trigger] peers[i]).status() == status,
        is_majority_target(peers, target),
    ensures
        target == SyncTargetView::of_status(status, peer_ids(peers)),
{
    let i = choose|i: int| #[trigger]
        majority(peers, i) && target == SyncTargetView::of_status(
            peers[i].status(),
            backers(peers, peers[i].status()),
        );
    assert(first_offer(peers, peers[i].status(), i));
    lemma_filter_all(peers, offers(status));
}

/// Whatever is replied, a search keeps the best target or comes to a target that is more difficult
/// than the bound. The peers of a new target are known peers with such chains, one at least.
pub proof fn law_search_finds_better(
    s: Seq<PeerDetail>,
    min_difficulty: nat,
    best_target: SyncTargetView,
    candidates: Seq<PeerInfo>,
    replies: Seq<Option<HashValue>>,
)
    requires
        are_candidates(
            better_infos(s, min_difficulty),
            min_difficulty,
            best_target,
            candidates,
        ),
        replies.len() <= candidates.len(),
    ensures
        ({
            let end = SearchView::fresh(best_target, candidates).judged_all(replies);
            ||| end.outcome() == best_target
            ||| {
                &&& end.outcome().block_info.total_difficulty@ > min_difficulty
                &&& end.outcome().peers.len() > 0
                &&& forall|id: PeerId| #[trigger]
                    end.outcome().peers.contains(id) ==> exists|peer: PeerInfo|
                        {
                            &&& #[trigger] infos(s).contains(peer)
                            &&& peer.peer_id == id
                            &&& peer.difficulty() > min_difficulty
                        }
            }
        }),
{
    let end = SearchView::fresh(best_target, candidates).judged_all(replies);
    law_search_outcome(best_target, candidates, replies);
    if let Some(target) = end.target_peer {
        let asked = peer_ids(candidates.take(replies.len() as int));
        let k = choose|k: int|
            {
                &&& #[trigger] leads(best_target, candidates, replies, k)
                &&& target == candidates[k]
                &&& end.outcome() == SyncTargetView::of_status(
                    target.status(),
                    marked(asked, helpers(best_target, candidates, replies, k)),
                )
            };
        let marks = helpers(best_target, candidates, replies, k);
        let group = s.filter(above(min_difficulty));
        let betters = infos(group);
        assert forall|peer: PeerInfo| #[trigger] candidates.contains(peer) implies infos(
            s,
        ).contains(peer) && peer.difficulty() > min_difficulty by {
            lemma_stable_sort_permutes(betters, candidates);
            assert(betters.contains(peer));
            let j = choose|j: int| 0 <= j < betters.len() && betters[j] == peer;
            assert(group.contains(group[j]));
            lemma_filter_has(s, above(min_difficulty), group[j]);
            let i = choose|i: int| 0 <= i < s.len() && s[i] == group[j];
            assert(infos(s)[i] == peer);
        }
        assert forall|id: PeerId| #[trigger] end.outcome().peers.contains(id) implies exists|
            peer: PeerInfo,
        |
            {
                &&& #[trigger] infos(s).contains(peer)
                &&& peer.peer_id == id
                &&& peer.difficulty() > min_difficulty
            } by {
            lemma_marked_has(asked, marks, id);
            let j = choose|j: int| 0 <= j < asked.len() && #[trigger] marks[j] && asked[j] == id;
            assert(candidates.contains(candidates[j]));
            assert(infos(s).contains(candidates[j]));
        }
        assert(candidates.contains(candidates[k]));
        lemma_marked_has(asked, marks, target.peer_id);
        assert(marks[k] && asked[k] == target.peer_id);
    }
}

/// A synchronization finishes only when the newest block is at least as high as the target, and it
/// finishes as soon as that is so.
pub proof fn law_finished_means_reached(task: FullSyncView, event: SyncEventView)
    requires
        !(task.phase is Finished),
    ensures
        task.next(event).phase matches SyncPhaseView::Finished(status) ==> status.head.number
            >= task.target.target_id.number,
        task.phase is Syncing ==> (event matches SyncEventView::Synced(status) ==> (
        status.head.number >= task.target.target_id.number ==> task.next(event).phase
            == SyncPhaseView::Finished(status))),
{
}

/// From start to end, whatever happens, a synchronization finishes only when the newest block is at
/// least as high as the target.
pub proof fn law_run_finishes_at_the_target(start: FullSyncView, events: Seq<SyncEventView>)
    requires
        start.phase is FindingAncestor,
    ensures
        after_events(start, events).action() matches SyncActionView::Finish(status)
            ==> status.head.number >= start.target.target_id.number,
    decreases events.len(),
{
    if events.len() > 0 {
        law_run_finishes_at_the_target(start, events.drop_last());
        law_target_stays(start, events.drop_last());
    }
}

/// Once the ancestor was announced, nothing that happens leads to another announcement.
pub proof fn law_ancestor_is_announced_once(task: FullSyncView, events: Seq<SyncEventView>)
    requires
        task.phase is Announcing,
    ensures
        !(after_events(task.next(SyncEventView::Announced), events).action() is Announce),
{
    lemma_rounds_follow(task.next(SyncEventView::Announced), events);
}

/// The synchronization is past the announcement of the ancestor.
spec fn past_announcement(task: FullSyncView) -> bool {
    ||| task.phase is FetchingPeers
    ||| task.phase is FindingTarget
    ||| task.phase is Syncing
    ||| task.phase is Finished
}

/// What is past the announcement stays so.
proof fn lemma_rounds_follow(task: FullSyncView, events: Seq<SyncEventView>)
    requires
        past_announcement(task),
    ensures
        past_announcement(after_events(task, events)),
    decreases events.len(),
{
    if events.len() > 0 {
        lemma_rounds_follow(task, events.drop_last());
    }
}

/// A round that does not reach the target is followed by one from the block that it ended with.
pub proof fn law_rounds_connect(task: FullSyncView, event: SyncEventView)
    requires
        task.phase is Syncing,
        event matches SyncEventView::Synced(status) && status.head.number
            < task.target.target_id.number,
    ensures
        task.next(event).phase == SyncPhaseView::FetchingPeers(
            event->Synced_0.head.spec_id_and_number(),
            event->Synced_0.info,
        ),
{
}

/// The target, the starting point and how rounds are run stay the same throughout.
pub proof fn law_target_stays(task: FullSyncView, events: Seq<SyncEventView>)
    ensures
        after_events(task, events).target == task.target,
        after_events(task, events).current_info == task.current_info,
        after_events(task, events).current_number == task.current_number,
        after_events(task, events).max_retry_times == task.max_retry_times,
        after_events(task, events).skip_pow_verify == task.skip_pow_verify,
    decreases events.len(),
{
    if events.len() > 0 {
        law_target_stays(task, events.drop_last());
    }
}

/// The synchronization after the events.
pub open spec fn after_events(task: FullSyncView, events: Seq<SyncEventView>) -> FullSyncView
    decreases events.len(),
{
    if events.len() == 0 {
        task
    } else {
        after_events(task, events.drop_last()).next(events.last())
    }
}

/// What has finished or failed stays so, and touches the peers no more.
pub proof fn law_end_is_final(task: FullSyncView, event: SyncEventView, peers: PeerSelectorView)
    requires
        task.phase is Finished || task.phase is Failed,
    ensures
        task.next(event) == task,
        task.next_peers(event, peers) == peers,
{
}

/// Once a round's target is found, exactly those of its peers that were known stay known.
pub proof fn law_round_keeps_target_peers(
    task: FullSyncView,
    target: SyncTargetView,
    peers: PeerSelectorView,
    id: PeerId,
)
    requires
        task.phase is FindingTarget,
    ensures
        ids(task.next_peers(SyncEventView::TargetFound(target), peers).details).contains(id)
            <==> ids(peers.details).contains(id) && target.peers.contains(id),
{
    law_only_peers(peers, target.peers, id);
}

/// Every peer that was fetched is known afterwards, and every peer that was known still is.
pub proof fn law_fetched_peers_are_known(
    view: PeerSelectorView,
    peers: Seq<PeerInfo>,
    id: PeerId,
)
    ensures
        ids(with_peers(view, peers).details).contains(id) <==> ids(view.details).contains(id)
            || peer_ids(peers).contains(id),
    decreases peers.len(),
{
    if peers.len() > 0 {
        let rest = peers.drop_last();
        let before = with_peers(view, rest);
        let last = peers.last();
        law_fetched_peers_are_known(view, rest, id);
        law_with_peer_is_known(before, last, id);
        let t = before.with_peer(last).details;
        assert(ids(t)[position(t, last.peer_id)] == last.peer_id);
        assert(peer_ids(peers) =~= peer_ids(rest).push(last.peer_id));
        if peer_ids(rest).contains(id) {
            let j = choose|j: int| 0 <= j < peer_ids(rest).len() && peer_ids(rest)[j] == id;
            assert(peer_ids(peers)[j] == id);
        }
        if peer_ids(peers).contains(id) && id != last.peer_id {
            let j = choose|j: int| 0 <= j < peer_ids(peers).len() && peer_ids(peers)[j] == id;
            assert(peer_ids(rest)[j] == id);
        }
        assert(peer_ids(peers)[peers.len() - 1] == last.peer_id);
    }
}

/// No event of a synchronization makes two entries about one peer.
pub proof fn law_sync_keeps_distinct(
    task: FullSyncView,
    event: SyncEventView,
    peers: PeerSelectorView,
)
    requires
        distinct(peers.details),
    ensures
        distinct(task.next_peers(event, peers).details),
{
    match event {
        SyncEventView::PeersFetched(fetched) => {
            lemma_fetched_keep_distinct(peers, fetched);
        },
        SyncEventView::TargetFound(target) => {
            law_only_peers_keeps_distinct(peers, target.peers);
        },
        _ => {},
    }
}

/// Taking over what several peers offer adds no second entry about any of them.
proof fn lemma_fetched_keep_distinct(view: PeerSelectorView, peers: Seq<PeerInfo>)
    requires
        distinct(view.details),
    ensures
        distinct(with_peers(view, peers).details),
    decreases peers.len(),
{
    if peers.len() > 0 {
        lemma_fetched_keep_distinct(view, peers.drop_last());
        law_with_peer_keeps_distinct(with_peers(view, peers.drop_last()), peers.last());
    }
}

} // verus!
