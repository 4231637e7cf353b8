//! What can be said of the list of peers that a selector keeps.

use crate::lemmas::lemma_filter_has;
use crate::order::{
    has_rank, lemma_of_rank_prepend, lemma_stable_sort_permutes, of_rank, stable_sort, Ranked,
};
use crate::peer::PeerDetail;
use crate::score::ScoreCounter;
use crate::types::{PeerId, PeerInfo};
use vstd::prelude::*;

verus! {

/// The identities of the peers, in order.
pub open spec fn ids(s: Seq<PeerDetail>) -> Seq<PeerId> {
    s.map_values(|detail: PeerDetail| detail.peer_info.peer_id)
}

/// What the peers offer, in order.
pub open spec fn infos(s: Seq<PeerDetail>) -> Seq<PeerInfo> {
    s.map_values(|detail: PeerDetail| detail.peer_info)
}

/// No two entries are about the same peer.
pub open spec fn distinct(s: Seq<PeerDetail>) -> bool {
    ids(s).no_duplicates()
}

/// The place of the first entry about the peer, or the length where there is none.
pub open spec fn position(s: Seq<PeerDetail>, id: PeerId) -> int
    decreases s.len(),
{
    if s.len() == 0 {
        0
    } else if s[0].peer_info.peer_id == id {
        0
    } else {
        1 + position(s.drop_first(), id)
    }
}

/// The sum of the peers' scores.
pub open spec fn score_sum(s: Seq<PeerDetail>) -> nat
    decreases s.len(),
{
    if s.len() == 0 {
        0
    } else {
        score_sum(s.drop_last()) + s.last().score_counter.score as nat
    }
}

/// The score that the list gives the peer: that of its last entry about it, or one.
pub open spec fn reputation_of(reputations: Seq<(PeerId, u64)>, id: PeerId) -> u64
    decreases reputations.len(),
{
    if reputations.len() == 0 {
        1
    } else if reputations.last().0 == id {
        reputations.last().1
    } else {
        reputation_of(reputations.drop_last(), id)
    }
}

/// The peers with the scores that the list gives them.
pub open spec fn rated(reputations: Seq<(PeerId, u64)>, peers: Seq<PeerInfo>) -> Seq<PeerDetail> {
    peers.map_values(
        |peer: PeerInfo|
            PeerDetail {
                peer_info: peer,
                score_counter: ScoreCounter {
                    score: reputation_of(reputations, peer.peer_id),
                    times: 1,
                },
            },
    )
}

/// The entries after every one about the peer had its score changed.
pub open spec fn rescored(s: Seq<PeerDetail>, id: PeerId, change: i64) -> Seq<PeerDetail> {
    s.map_values(
        |detail: PeerDetail|
            if detail.peer_info.peer_id == id {
                PeerDetail {
                    peer_info: detail.peer_info,
                    score_counter: detail.score_counter.changed_by(change),
                }
            } else {
                detail
            },
    )
}

/// The entries after the first one about the peer took over what the peer offers now, or with a
/// new entry at the end where there is none about the peer.
pub open spec fn added_or_updated(s: Seq<PeerDetail>, info: PeerInfo) -> Seq<PeerDetail> {
    let i = position(s, info.peer_id);
    if i < s.len() {
        s.update(i, PeerDetail { peer_info: info, score_counter: s[i].score_counter })
    } else {
        s.push(PeerDetail { peer_info: info, score_counter: ScoreCounter { score: 1, times: 1 } })
    }
}

/// The entries without the first one about the peer.
pub open spec fn removed(s: Seq<PeerDetail>, id: PeerId) -> Seq<PeerDetail> {
    let i = position(s, id);
    if i < s.len() {
        s.remove(i)
    } else {
        s
    }
}

/// The score that goes when the first entry about the peer does.
pub open spec fn removed_score(s: Seq<PeerDetail>, id: PeerId) -> nat {
    let i = position(s, id);
    if i < s.len() {
        s[i].score_counter.score as nat
    } else {
        0
    }
}

/// The test for being one of the given peers.
pub open spec fn among(peers: Seq<PeerId>) -> spec_fn(PeerDetail) -> bool {
    |detail: PeerDetail| peers.contains(detail.peer_info.peer_id)
}

/// The entries about the given peers.
pub open spec fn retained(s: Seq<PeerDetail>, peers: Seq<PeerId>) -> Seq<PeerDetail> {
    s.filter(among(peers))
}

/// The test for a chain with a total difficulty above the given one.
pub open spec fn above(difficulty: nat) -> spec_fn(PeerDetail) -> bool {
    |detail: PeerDetail| detail.peer_info.difficulty() > difficulty
}

/// What the peers whose chains have a total difficulty above the given one offer, in order, if
/// there are any.
pub open spec fn better_infos(s: Seq<PeerDetail>, difficulty: nat) -> Option<Seq<PeerInfo>> {
    let betters = infos(s.filter(above(difficulty)));
    if betters.len() == 0 {
        None
    } else {
        Some(betters)
    }
}

/// The peers' identities and scores, in order.
pub open spec fn scores(s: Seq<PeerDetail>) -> Seq<(PeerId, u64)> {
    s.map_values(
        |detail: PeerDetail| (detail.peer_info.peer_id, detail.score_counter.score),
    )
}

/// The lesser of a sum and the greatest `u64`.
pub open spec fn saturated(sum: nat) -> u64 {
    if sum > u64::MAX {
        u64::MAX
    } else {
        sum as u64
    }
}

/// The greatest total difficulty of the peers' chains.
pub open spec fn highest(s: Seq<PeerDetail>) -> nat
    decreases s.len(),
{
    if s.len() <= 1 {
        s[0].rank()
    } else if highest(s.drop_last()) >= s.last().rank() {
        highest(s.drop_last())
    } else {
        s.last().rank()
    }
}

/// What the peers whose chains have the greatest total difficulty offer, the last peer first, if
/// that difficulty is above the given one.
pub open spec fn best_infos(s: Seq<PeerDetail>, min_difficulty: nat) -> Option<Seq<PeerInfo>> {
    if s.len() == 0 || highest(s) <= min_difficulty {
        None
    } else {
        Some(infos(of_rank(s, highest(s)).reverse()))
    }
}

/// The items that are marked with `true`, in order.
pub open spec fn marked<A>(s: Seq<A>, marks: Seq<bool>) -> Seq<A>
    decreases s.len(),
{
    if s.len() == 0 || s.len() != marks.len() {
        Seq::empty()
    } else if marks.last() {
        marked(s.drop_last(), marks.drop_last()).push(s.last())
    } else {
        marked(s.drop_last(), marks.drop_last())
    }
}

/// An item is taken if it stands at a marked place.
pub proof fn lemma_marked_has<A>(s: Seq<A>, marks: Seq<bool>, x: A)
    requires
        s.len() == marks.len(),
    ensures
        marked(s, marks).contains(x) <==> exists|i: int|
            0 <= i < s.len() && #[trigger] marks[i] && s[i] == x,
    decreases s.len(),
{
    if s.len() > 0 {
        let n = s.len() - 1;
        let rest = marked(s.drop_last(), marks.drop_last());
        let all = marked(s, marks);
        lemma_marked_has(s.drop_last(), marks.drop_last(), x);
        if all.contains(x) {
            let j = choose|j: int| 0 <= j < all.len() && all[j] == x;
            if j < rest.len() {
                assert(rest[j] == x);
                let i = choose|i: int|
                    0 <= i < n && #[trigger] marks.drop_last()[i] && s.drop_last()[i] == x;
                assert(marks[i] && s[i] == x);
            } else {
                assert(marks[n] && s[n] == x);
            }
        }
        if exists|i: int| 0 <= i < s.len() && #[trigger] marks[i] && s[i] == x {
            let i = choose|i: int| 0 <= i < s.len() && #[trigger] marks[i] && s[i] == x;
            if i < n {
                assert(marks.drop_last()[i] && s.drop_last()[i] == x);
                let j = choose|j: int| 0 <= j < rest.len() && rest[j] == x;
                assert(all[j] == x);
            } else {
                assert(all[all.len() - 1] == x);
            }
        }
    }
}

/// The entry at `i` has the highest measure of all, and none before it has as high a one.
pub open spec fn first_highest(
    s: Seq<PeerDetail>,
    measure: spec_fn(PeerDetail) -> int,
    i: int,
) -> bool {
    &&& 0 <= i < s.len()
    &&& forall|j: int| 0 <= j < i ==> measure(#[trigger] s[j]) < measure(s[i])
    &&& forall|j: int| i <= j < s.len() ==> measure(#[trigger] s[j]) <= measure(s[i])
}

/// A peer's score, as a measure of the peer.
pub open spec fn by_score() -> spec_fn(PeerDetail) -> int {
    |detail: PeerDetail| detail.score_counter.score as int
}

/// A peer's average score, as a measure of the peer.
pub open spec fn by_avg_score() -> spec_fn(PeerDetail) -> int {
    |detail: PeerDetail| detail.score_counter.spec_avg() as int
}

/// The first of the peers with the highest measure, where there is any peer.
pub open spec fn top_choice(
    s: Seq<PeerDetail>,
    measure: spec_fn(PeerDetail) -> int,
    choice: Option<PeerId>,
) -> bool {
    match choice {
        Some(id) => exists|i: int|
            #[trigger] first_highest(s, measure, i) && id == s[i].peer_info.peer_id,
        None => s.len() == 0,
    }
}

/// One of the peers, where there is any.
pub open spec fn any_choice(s: Seq<PeerDetail>, choice: Option<PeerId>) -> bool {
    match choice {
        Some(id) => ids(s).contains(id),
        None => s.len() == 0,
    }
}

/// The number `x` falls to the entry at `k` where the scores are laid end to end, from zero on.
pub open spec fn falls_to(s: Seq<PeerDetail>, x: int, k: int) -> bool {
    &&& 0 <= k < s.len()
    &&& score_sum(s.take(k)) <= x < score_sum(#[trigger] s.take(k + 1))
}

/// The peer that the number `x` falls to, where it falls to one.
pub open spec fn weighted_choice(s: Seq<PeerDetail>, x: int, choice: Option<PeerId>) -> bool {
    match choice {
        Some(id) => exists|k: int| #[trigger] falls_to(s, x, k) && id == s[k].peer_info.peer_id,
        None => score_sum(s) <= x,
    }
}

/// Adding up the scores until the sum exceeds `x` stays in the `u64` range.
pub open spec fn sums_fit(s: Seq<PeerDetail>, x: int) -> bool {
    forall|k: int|
        0 <= k < s.len() && score_sum(s.take(k)) <= x ==> score_sum(#[trigger] s.take(k + 1))
            <= u64::MAX
}

/// The greatest total difficulty is that of one of the peers, and no peer's is greater.
pub proof fn lemma_highest(s: Seq<PeerDetail>)
    requires
        s.len() > 0,
    ensures
        exists|i: int| 0 <= i < s.len() && (#[trigger] s[i]).rank() == highest(s),
        forall|i: int| 0 <= i < s.len() ==> (#[trigger] s[i]).rank() <= highest(s),
    decreases s.len(),
{
    if s.len() > 1 {
        let t = s.drop_last();
        lemma_highest(t);
        let k = choose|k: int| 0 <= k < t.len() && (#[trigger] t[k]).rank() == highest(t);
        assert(s[k] == t[k]);
        assert(s[s.len() - 1] == s.last());
        assert forall|i: int| 0 <= i < s.len() implies (#[trigger] s[i]).rank() <= highest(s) by {
            if i < t.len() {
                assert(t[i] == s[i]);
            }
        }
    } else {
        assert(s[0].rank() == highest(s));
    }
}

/// What the peers of one rank offer, the last first, when the entry before the suffix is added.
pub proof fn lemma_reversed_infos_step(t: Seq<PeerDetail>, i: int, rank: nat)
    requires
        0 <= i < t.len(),
    ensures
        infos(of_rank(t.skip(i), rank).reverse()) == if t[i].rank() == rank {
            infos(of_rank(t.skip(i + 1), rank).reverse()).push(t[i].peer_info)
        } else {
            infos(of_rank(t.skip(i + 1), rank).reverse())
        },
{
    let rest = of_rank(t.skip(i + 1), rank);
    assert(t.skip(i) =~= seq![t[i]] + t.skip(i + 1));
    lemma_of_rank_prepend(t[i], t.skip(i + 1), rank);
    if t[i].rank() == rank {
        assert((seq![t[i]] + rest).reverse() =~= rest.reverse().push(t[i]));
        assert(infos(rest.reverse().push(t[i])) =~= infos(rest.reverse()).push(t[i].peer_info));
    }
}

/// After a sort, the last entry has the greatest total difficulty.
pub proof fn lemma_sorted_ends_highest(s: Seq<PeerDetail>, t: Seq<PeerDetail>)
    requires
        s.len() > 0,
        stable_sort(s, t),
    ensures
        t.len() == s.len(),
        t[t.len() - 1].rank() == highest(s),
{
    lemma_stable_sort_permutes(s, t);
    lemma_highest(s);
    let k = choose|k: int| 0 <= k < s.len() && (#[trigger] s[k]).rank() == highest(s);
    assert(s.contains(s[k]));
    let j = choose|j: int| 0 <= j < t.len() && t[j] == s[k];
    assert(t[j].rank() <= t[t.len() - 1].rank());
    assert(t.contains(t[t.len() - 1]));
    assert(s.contains(t[t.len() - 1]));
}

/// Where the first entry about a peer stands.
pub proof fn lemma_position(s: Seq<PeerDetail>, id: PeerId)
    ensures
        0 <= position(s, id) <= s.len(),
        position(s, id) < s.len() <==> ids(s).contains(id),
        position(s, id) < s.len() ==> s[position(s, id)].peer_info.peer_id == id,
        forall|j: int| 0 <= j < position(s, id) ==> (#[trigger] s[j]).peer_info.peer_id != id,
    decreases s.len(),
{
    if s.len() > 0 && s[0].peer_info.peer_id != id {
        let t = s.drop_first();
        lemma_position(t, id);
        assert forall|j: int| 0 <= j < position(s, id) implies (#[trigger] s[j]).peer_info.peer_id
            != id by {
            if j > 0 {
                assert(t[j - 1] == s[j]);
            }
        }
        if ids(t).contains(id) {
            let j = choose|j: int| 0 <= j < t.len() && ids(t)[j] == id;
            assert(ids(s)[j + 1] == id);
        }
        if ids(s).contains(id) {
            let j = choose|j: int| 0 <= j < s.len() && ids(s)[j] == id;
            assert(ids(t)[j - 1] == id);
        }
    } else if s.len() > 0 {
        assert(ids(s)[0] == id);
    }
}

/// A place that is the first about a peer is the peer's position.
pub proof fn lemma_position_at(s: Seq<PeerDetail>, id: PeerId, i: int)
    requires
        0 <= i <= s.len(),
        i < s.len() ==> s[i].peer_info.peer_id == id,
        forall|j: int| 0 <= j < i ==> (#[trigger] s[j]).peer_info.peer_id != id,
    ensures
        position(s, id) == i,
{
    lemma_position(s, id);
    let p = position(s, id);
    if p < i {
        assert(s[p].peer_info.peer_id == id);
    }
    if i < p {
        assert(s[i].peer_info.peer_id != id);
    }
}

/// The sum of one more score.
pub proof fn lemma_score_sum_take(s: Seq<PeerDetail>, k: int)
    requires
        0 <= k < s.len(),
    ensures
        score_sum(s.take(k + 1)) == score_sum(s.take(k)) + s[k].score_counter.score,
{
    assert(s.take(k + 1).drop_last() =~= s.take(k));
}

/// Peers without a reputation have a score of one each.
pub proof fn lemma_unrated_sum(peers: Seq<PeerInfo>)
    ensures
        score_sum(rated(Seq::empty(), peers)) == peers.len(),
    decreases peers.len(),
{
    if peers.len() > 0 {
        lemma_unrated_sum(peers.drop_last());
        assert(rated(Seq::empty(), peers).drop_last() =~= rated(Seq::empty(), peers.drop_last()));
    }
}

/// Where there are best peers, there is at least one.
pub proof fn lemma_bests_nonempty(s: Seq<PeerDetail>, min_difficulty: nat)
    ensures
        best_infos(s, min_difficulty) matches Some(bests) ==> bests.len() > 0,
{
    if best_infos(s, min_difficulty) is Some {
        lemma_highest(s);
        let k = choose|k: int| 0 <= k < s.len() && (#[trigger] s[k]).rank() == highest(s);
        assert(s.contains(s[k]));
        lemma_filter_has(s, has_rank(highest(s)), s[k]);
    }
}

/// Longer prefixes have no smaller sums.
pub proof fn lemma_score_sum_monotone(s: Seq<PeerDetail>, i: int, j: int)
    requires
        0 <= i <= j <= s.len(),
    ensures
        score_sum(s.take(i)) <= score_sum(s.take(j)),
    decreases j - i,
{
    if i < j {
        lemma_score_sum_monotone(s, i, j - 1);
        lemma_score_sum_take(s, j - 1);
    }
}

} // verus!
