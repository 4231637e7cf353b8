//! The search for a block to synchronize to that more peers can help with.
//!
//! The peers with better chains are judged one after the other. Judging one may take the hash of a
//! block that only a peer can tell: [`BetterTargetSearch::next_step`] says what to ask, and
//! [`BetterTargetSearch::judge`] takes the reply.

use crate::fetch::BlockIdsRequest;
use crate::order::{reverse, sort_by_key, stable_sort, Ranked};
use crate::peer::PeerDetail;
use crate::roster::{better_infos, marked};
use crate::selector::{contains_peer, PeerSelector};
use crate::target::peer_ids;
use crate::types::{HashValue, PeerId, PeerInfo, SyncTarget, SyncTargetView, U256};
use vstd::prelude::*;

verus! {

/// A search that is under way.
pub struct BetterTargetSearch {
    best_target: SyncTarget,
    /// The peers that are still to be judged, the next one at the end.
    pending: Vec<PeerInfo>,
    target_peer: Option<PeerInfo>,
    peers: Vec<PeerId>,
}

/// What a [`BetterTargetSearch`] has found out and has still to do.
#[verifier::ext_equal]
pub struct SearchView {
    /// The target that any other one is held against.
    pub best_target: SyncTargetView,
    /// The peers that are still to be judged.
    pub pending: Seq<PeerInfo>,
    /// The peer whose newest block is the new target, if there is one yet.
    pub target_peer: Option<PeerInfo>,
    /// The peers that have the new target's block.
    pub peers: Seq<PeerId>,
}

/// What a search needs next.
#[derive(Clone, Copy, Debug, PartialEq, Eq, Structural)]
pub enum SearchStep {
    /// The reply to this request.
    Ask(BlockIdsRequest),
    /// Nothing: the next peer is known to be on the target's chain.
    Judge,
    /// Nothing: every peer has been judged.
    Done,
}

impl View for BetterTargetSearch {
    type V = SearchView;

    closed spec fn view(&self) -> SearchView {
        SearchView {
            best_target: self.best_target@,
            pending: self.pending@.reverse(),
            target_peer: self.target_peer,
            peers: self.peers@,
        }
    }
}

impl SearchView {
    /// A search with all candidates still to be judged.
    pub open spec fn fresh(best_target: SyncTargetView, candidates: Seq<PeerInfo>) -> SearchView {
        SearchView {
            best_target,
            pending: candidates,
            target_peer: None,
            peers: Seq::empty(),
        }
    }

    /// What the search needs next. Until there is a new target, a peer of the best target is asked
    /// for the block at the candidate's height; then the candidate is asked for the block at the
    /// new target's height. Peers of the best target are taken without a question.
    pub open spec fn step(self) -> SearchStep {
        if self.pending.len() == 0 {
            SearchStep::Done
        } else if self.best_target.peers.contains(self.pending[0].peer_id) {
            SearchStep::Judge
        } else {
            SearchStep::Ask(
                match self.target_peer {
                    None => BlockIdsRequest::spec_single(
                        if self.best_target.peers.len() > 0 {
                            Some(self.best_target.peers[0])
                        } else {
                            None
                        },
                        self.pending[0].status().head.number,
                    ),
                    Some(target) => BlockIdsRequest::spec_single(
                        Some(self.pending[0].peer_id),
                        target.status().head.number,
                    ),
                },
            )
        }
    }

    /// Whether the next peer has the new target's block, or its newest block can be the new
    /// target, given the hash in the reply.
    pub open spec fn eligible(self, reply: Option<HashValue>) -> bool {
        let candidate = self.pending[0];
        let target = match self.target_peer {
            None => candidate,
            Some(target) => target,
        };
        self.best_target.peers.contains(candidate.peer_id) || reply == Some(target.status().head.id)
    }

    /// The search after the next peer was judged.
    pub open spec fn judged(self, reply: Option<HashValue>) -> SearchView {
        if self.pending.len() == 0 {
            self
        } else if self.eligible(reply) {
            SearchView {
                best_target: self.best_target,
                pending: self.pending.drop_first(),
                target_peer: if self.target_peer is None {
                    Some(self.pending[0])
                } else {
                    self.target_peer
                },
                peers: self.peers.push(self.pending[0].peer_id),
            }
        } else {
            SearchView { pending: self.pending.drop_first(), ..self }
        }
    }

    /// The search after the next peers were judged, one with each reply.
    pub open spec fn judged_all(self, replies: Seq<Option<HashValue>>) -> SearchView
        decreases replies.len(),
    {
        if replies.len() == 0 {
            self
        } else {
            self.judged_all(replies.drop_last()).judged(replies.last())
        }
    }

    /// The hash that the next peer is judged with, where `fetch` gives the hash in the reply to a
    /// request.
    pub open spec fn reply(self, fetch: spec_fn(BlockIdsRequest) -> Option<HashValue>) -> Option<
        HashValue,
    > {
        match self.step() {
            SearchStep::Ask(request) => fetch(request),
            _ => None,
        }
    }

    /// The search at its end, where `fetch` gives the hash in the reply to a request.
    pub open spec fn run(self, fetch: spec_fn(BlockIdsRequest) -> Option<HashValue>) -> SearchView
        decreases self.pending.len(),
    {
        if self.pending.len() == 0 {
            self
        } else {
            self.judged(self.reply(fetch)).run(fetch)
        }
    }

    /// The target by what has been judged so far: the new one, or the best target where there is
    /// none.
    pub open spec fn outcome(self) -> SyncTargetView {
        match self.target_peer {
            Some(peer) => SyncTargetView::of_status(peer.status(), self.peers),
            None => self.best_target,
        }
    }
}

/// The candidates of a search: none where `min_difficulty` is not below the best target's total
/// difficulty, and else the peers whose chains have a total difficulty above it, the least
/// difficult first.
pub open spec fn are_candidates(
    betters: Option<Seq<PeerInfo>>,
    min_difficulty: nat,
    best_target: SyncTargetView,
    candidates: Seq<PeerInfo>,
) -> bool {
    match betters {
        Some(betters) if min_difficulty < best_target.block_info.total_difficulty@ => {
            stable_sort(betters, candidates)
        },
        _ => candidates == Seq::<PeerInfo>::empty(),
    }
}

impl BetterTargetSearch {
    /// Starts a search.
    pub fn new(
        selector: &PeerSelector,
        min_difficulty: U256,
        best_target: SyncTarget,
    ) -> (r: BetterTargetSearch)
        ensures
            r@ == SearchView::fresh(best_target@, r@.pending),
            are_candidates(
                better_infos(selector@.details, min_difficulty@),
                min_difficulty@,
                best_target@,
                r@.pending,
            ),
    {
        let mut candidates: Vec<PeerInfo> = Vec::new();
        if best_target.block_info.total_difficulty.exceeds(&min_difficulty) {
            if let Some(better_peers) = selector.betters(min_difficulty) {
                candidates = better_peers;
                sort_by_key(&mut candidates);
            }
        }
        let ghost ordered = candidates@;
        reverse(&mut candidates);
        assert(candidates@.reverse() =~= ordered);
        BetterTargetSearch {
            best_target,
            pending: candidates,
            target_peer: None,
            peers: Vec::new(),
        }
    }

    /// What the search needs next.
    pub fn next_step(&self) -> (r: SearchStep)
        ensures
            r == self@.step(),
    {
        if self.pending.len() == 0 {
            return SearchStep::Done;
        }
        let candidate = self.pending[self.pending.len() - 1];
        if contains_peer(self.best_target.peers.as_slice(), &candidate.peer_id()) {
            return SearchStep::Judge;
        }
        SearchStep::Ask(
            match self.target_peer {
                None => {
                    let first = if self.best_target.peers.len() > 0 {
                        Some(self.best_target.peers[0])
                    } else {
                        None
                    };
                    BlockIdsRequest::single(first, candidate.block_number())
                },
                Some(target) => BlockIdsRequest::single(
                    Some(candidate.peer_id()),
                    target.block_number(),
                ),
            },
        )
    }

    /// Judges the next peer, where there is one. `reply` is the hash in the reply to what the
    /// search asked; where it asked nothing, it does not matter.
    pub fn judge(&mut self, reply: Option<HashValue>)
        ensures
            final(self)@ == old(self)@.judged(reply),
    {
        let ghost pending = self.pending@;
        let candidate = match self.pending.pop() {
            Some(candidate) => candidate,
            None => {
                return;
            },
        };
        assert(pending.reverse().drop_first() =~= self.pending@.reverse());
        let wanted = match self.target_peer {
            None => candidate.block_id(),
            Some(target) => target.block_id(),
        };
        let confirmed = match reply {
            Some(id) => id == wanted,
            None => false,
        };
        if contains_peer(self.best_target.peers.as_slice(), &candidate.peer_id()) || confirmed {
            if self.target_peer.is_none() {
                self.target_peer = Some(candidate);
            }
            self.peers.push(candidate.peer_id());
        }
    }

    /// Ends the search with the target by what has been judged so far.
    pub fn finish(self) -> (r: SyncTarget)
        ensures
            r@ == self@.outcome(),
    {
        match self.target_peer {
            Some(peer) => SyncTarget {
                target_id: peer.latest_header().id_and_number(),
                block_info: peer.chain_info().status.info,
                peers: self.peers,
            },
            None => self.best_target,
        }
    }
}

/// Whether the candidate at `i` can give the new target: it is a peer of the best target, or a peer
/// of the best target confirmed its newest block.
pub open spec fn can_lead(
    best_target: SyncTargetView,
    candidates: Seq<PeerInfo>,
    replies: Seq<Option<HashValue>>,
    i: int,
) -> bool {
    best_target.peers.contains(candidates[i].peer_id) || replies[i] == Some(
        candidates[i].status().head.id,
    )
}

/// Whether the candidate at `i` helps with the newest block of the one at `k`: it is a peer of the
/// best target, or it confirmed that block.
pub open spec fn can_help(
    best_target: SyncTargetView,
    candidates: Seq<PeerInfo>,
    replies: Seq<Option<HashValue>>,
    k: int,
    i: int,
) -> bool {
    best_target.peers.contains(candidates[i].peer_id) || replies[i] == Some(
        candidates[k].status().head.id,
    )
}

/// The candidate at `k` is the first that can give the new target.
pub open spec fn leads(
    best_target: SyncTargetView,
    candidates: Seq<PeerInfo>,
    replies: Seq<Option<HashValue>>,
    k: int,
) -> bool {
    &&& 0 <= k < replies.len()
    &&& can_lead(best_target, candidates, replies, k)
    &&& forall|i: int| 0 <= i < k ==> !#[trigger] can_lead(best_target, candidates, replies, i)
}

/// Which of the candidates have the newest block of the one at `k`.
pub open spec fn helpers(
    best_target: SyncTargetView,
    candidates: Seq<PeerInfo>,
    replies: Seq<Option<HashValue>>,
    k: int,
) -> Seq<bool> {
    Seq::new(
        replies.len(),
        |i: int| i >= k && can_help(best_target, candidates, replies, k, i),
    )
}

/// What a search comes to when each of its candidates was judged with one of the replies.
///
/// The first candidate that is a peer of the best target, or whose newest block a peer of the best
/// target confirmed, gives the new target. It and those after it that are peers of the best target
/// or confirmed its block are the new target's peers. Where there is no such candidate, the best
/// target stays.
pub proof fn law_search_outcome(
    best_target: SyncTargetView,
    candidates: Seq<PeerInfo>,
    replies: Seq<Option<HashValue>>,
)
    requires
        replies.len() <= candidates.len(),
    ensures
        ({
            let end = SearchView::fresh(best_target, candidates).judged_all(replies);
            &&& end.pending == candidates.skip(replies.len() as int)
            &&& end.best_target == best_target
            &&& match end.target_peer {
                Some(peer) => exists|k: int|
                    {
                        &&& #[trigger] leads(best_target, candidates, replies, k)
                        &&& peer == candidates[k]
                        &&& end.outcome() == SyncTargetView::of_status(
                            peer.status(),
                            marked(
                                peer_ids(candidates.take(replies.len() as int)),
                                helpers(best_target, candidates, replies, k),
                            ),
                        )
                    },
                None => {
                    &&& end.outcome() == best_target
                    &&& end.peers == Seq::<PeerId>::empty()
                    &&& forall|i: int|
                        0 <= i < replies.len() ==> !#[trigger] can_lead(
                            best_target,
                            candidates,
                            replies,
                            i,
                        )
                },
            }
        }),
    decreases replies.len(),
{
    let start = SearchView::fresh(best_target, candidates);
    if replies.len() == 0 {
        assert(candidates.skip(0) =~= candidates);
    } else {
        let shorter = replies.drop_last();
        let n = shorter.len() as int;
        law_search_outcome(best_target, candidates, shorter);
        let before = start.judged_all(shorter);
        let end = start.judged_all(replies);
        assert(before.pending[0] == candidates[n]);
        assert(candidates.skip(n).drop_first() =~= candidates.skip(n + 1));
        assert forall|i: int| 0 <= i < n implies can_lead(best_target, candidates, shorter, i)
            == can_lead(best_target, candidates, replies, i) by {
            assert(shorter[i] == replies[i]);
        }
        let some_ids = peer_ids(candidates.take(n));
        let all_ids = peer_ids(candidates.take(n + 1));
        assert(all_ids.drop_last() =~= some_ids);
        assert(all_ids.last() == candidates[n].peer_id);
        match before.target_peer {
            Some(peer) => {
                let k = choose|k: int|
                    {
                        &&& #[trigger] leads(best_target, candidates, shorter, k)
                        &&& peer == candidates[k]
                        &&& before.outcome() == SyncTargetView::of_status(
                            peer.status(),
                            marked(some_ids, helpers(best_target, candidates, shorter, k)),
                        )
                    };
                assert(can_lead(best_target, candidates, replies, k));
                assert forall|i: int| 0 <= i < k implies !#[trigger] can_lead(
                    best_target,
                    candidates,
                    replies,
                    i,
                ) by {
                    assert(!can_lead(best_target, candidates, shorter, i));
                }
                assert(leads(best_target, candidates, replies, k));
                let marks = helpers(best_target, candidates, replies, k);
                assert(marks.drop_last() =~= helpers(best_target, candidates, shorter, k));
                assert(end.peers == marked(all_ids, marks));
            },
            None => {
                if before.eligible(replies.last()) {
                    assert(can_lead(best_target, candidates, replies, n));
                    assert forall|i: int| 0 <= i < n implies !#[trigger] can_lead(
                        best_target,
                        candidates,
                        replies,
                        i,
                    ) by {
                        assert(!can_lead(best_target, candidates, shorter, i));
                    }
                    assert(leads(best_target, candidates, replies, n));
                    let marks = helpers(best_target, candidates, replies, n);
                    lemma_unmarked(some_ids, marks.drop_last());
                    assert(end.peers == marked(all_ids, marks));
                } else {
                    assert forall|i: int| 0 <= i < replies.len() implies !#[trigger] can_lead(
                        best_target,
                        candidates,
                        replies,
                        i,
                    ) by {
                        if i < n {
                            assert(!can_lead(best_target, candidates, shorter, i));
                        }
                    }
                }
            },
        }
    }
}

/// Whether a candidate can give the new target: it is a peer of the best target, or the first peer
/// of the best target has the candidate's newest block at its height.
pub open spec fn matches_best(
    best_target: SyncTargetView,
    fetch: spec_fn(BlockIdsRequest) -> Option<HashValue>,
    candidate: PeerInfo,
) -> bool {
    let first = if best_target.peers.len() > 0 {
        Some(best_target.peers[0])
    } else {
        None
    };
    best_target.peers.contains(candidate.peer_id) || fetch(
        BlockIdsRequest::spec_single(first, candidate.status().head.number),
    ) == Some(candidate.status().head.id)
}

/// Whether a candidate helps with the newest block of `lead`: it is a peer of the best target, or it
/// has that block at its height.
pub open spec fn confirms(
    best_target: SyncTargetView,
    fetch: spec_fn(BlockIdsRequest) -> Option<HashValue>,
    lead: PeerInfo,
    candidate: PeerInfo,
) -> bool {
    best_target.peers.contains(candidate.peer_id) || fetch(
        BlockIdsRequest::spec_single(Some(candidate.peer_id), lead.status().head.number),
    ) == Some(lead.status().head.id)
}

/// The candidate at `k` is the first that can give the new target.
pub open spec fn first_match(
    best_target: SyncTargetView,
    fetch: spec_fn(BlockIdsRequest) -> Option<HashValue>,
    candidates: Seq<PeerInfo>,
    k: int,
) -> bool {
    &&& 0 <= k < candidates.len()
    &&& matches_best(best_target, fetch, candidates[k])
    &&& forall|i: int|
        0 <= i < k ==> !matches_best(best_target, fetch, #[trigger] candidates[i])
}

/// Which of the candidates are the peers of the new target that the one at `k` gives: that one, and
/// the later ones that confirm its block.
pub open spec fn confirmers(
    best_target: SyncTargetView,
    fetch: spec_fn(BlockIdsRequest) -> Option<HashValue>,
    candidates: Seq<PeerInfo>,
    k: int,
) -> Seq<bool> {
    Seq::new(
        candidates.len(),
        |i: int| i == k || (i > k && confirms(best_target, fetch, candidates[k], candidates[i])),
    )
}

/// What a search comes to where each reply is what `fetch` gives on the request that was made.
///
/// Where a candidate is a peer of the best target, or the first peer of the best target has its
/// newest block, the first such candidate, which is one of the least difficult of them, gives the
/// new target. The new target's peers are that candidate and the later ones that are peers of the
/// best target or have its block. Where there is no such candidate, the best target stays.
pub proof fn law_search_by_fetching(
    s: Seq<PeerDetail>,
    min_difficulty: nat,
    best_target: SyncTargetView,
    candidates: Seq<PeerInfo>,
    fetch: spec_fn(BlockIdsRequest) -> Option<HashValue>,
)
    requires
        are_candidates(
            better_infos(s, min_difficulty),
            min_difficulty,
            best_target,
            candidates,
        ),
    ensures
        ({
            let end = SearchView::fresh(best_target, candidates).run(fetch);
            &&& end.step() == SearchStep::Done
            &&& forall|k: int| #[trigger]
                first_match(best_target, fetch, candidates, k) ==> {
                    &&& end.outcome() == SyncTargetView::of_status(
                        candidates[k].status(),
                        marked(
                            peer_ids(candidates),
                            confirmers(best_target, fetch, candidates, k),
                        ),
                    )
                    &&& forall|i: int|
                        0 <= i < candidates.len() && matches_best(
                            best_target,
                            fetch,
                            #[trigger] candidates[i],
                        ) ==> candidates[k].difficulty() <= candidates[i].difficulty()
                }
            &&& (exists|i: int|
                0 <= i < candidates.len() && matches_best(
                    best_target,
                    fetch,
                    #[trigger] candidates[i],
                )) ==> exists|k: int| #[trigger] first_match(best_target, fetch, candidates, k)
            &&& (forall|i: int|
                0 <= i < candidates.len() ==> !matches_best(
                    best_target,
                    fetch,
                    #[trigger] candidates[i],
                )) ==> end.outcome() == best_target
        }),
{
    let start = SearchView::fresh(best_target, candidates);
    let end = start.run(fetch);
    assert(candidates.skip(0) =~= candidates);
    assert(candidates.take(0) =~= Seq::<PeerInfo>::empty());
    lemma_run_ends(start, fetch);
    assert forall|k: int| #[trigger] first_match(best_target, fetch, candidates, k) implies {
        &&& end.outcome() == SyncTargetView::of_status(
            candidates[k].status(),
            marked(peer_ids(candidates), confirmers(best_target, fetch, candidates, k)),
        )
        &&& forall|i: int|
            0 <= i < candidates.len() && matches_best(
                best_target,
                fetch,
                #[trigger] candidates[i],
            ) ==> candidates[k].difficulty() <= candidates[i].difficulty()
    } by {
        lemma_run_from(best_target, candidates, fetch, 0, k, start);
        assert forall|i: int|
            0 <= i < candidates.len() && matches_best(
                best_target,
                fetch,
                #[trigger] candidates[i],
            ) implies candidates[k].difficulty() <= candidates[i].difficulty() by {
            assert(k <= i);
            assert(candidates[k].rank() <= candidates[i].rank());
        }
    }
    if exists|i: int|
        0 <= i < candidates.len() && matches_best(best_target, fetch, #[trigger] candidates[i]) {
        let i = choose|i: int|
            0 <= i < candidates.len() && matches_best(best_target, fetch, #[trigger] candidates[i]);
        lemma_first_match_exists(best_target, fetch, candidates, i);
    } else {
        lemma_run_without_match(best_target, candidates, fetch, 0, start);
    }
}

/// Where a candidate matches, there is a first one that does.
proof fn lemma_first_match_exists(
    best_target: SyncTargetView,
    fetch: spec_fn(BlockIdsRequest) -> Option<HashValue>,
    candidates: Seq<PeerInfo>,
    i: int,
)
    requires
        0 <= i < candidates.len(),
        matches_best(best_target, fetch, candidates[i]),
    ensures
        exists|k: int| #[trigger] first_match(best_target, fetch, candidates, k),
    decreases i,
{
    if exists|j: int| 0 <= j < i && matches_best(best_target, fetch, #[trigger] candidates[j]) {
        let j = choose|j: int|
            0 <= j < i && matches_best(best_target, fetch, #[trigger] candidates[j]);
        lemma_first_match_exists(best_target, fetch, candidates, j);
    } else {
        assert(first_match(best_target, fetch, candidates, i));
    }
}

/// A search that is run to its end has no peer left to judge.
proof fn lemma_run_ends(
    search: SearchView,
    fetch: spec_fn(BlockIdsRequest) -> Option<HashValue>,
)
    ensures
        search.run(fetch).pending.len() == 0,
    decreases search.pending.len(),
{
    if search.pending.len() > 0 {
        lemma_run_ends(search.judged(search.reply(fetch)), fetch);
    }
}

/// A search without a matching candidate from the one at `n` on keeps the best target.
proof fn lemma_run_without_match(
    best_target: SyncTargetView,
    candidates: Seq<PeerInfo>,
    fetch: spec_fn(BlockIdsRequest) -> Option<HashValue>,
    n: int,
    search: SearchView,
)
    requires
        0 <= n <= candidates.len(),
        search == (SearchView {
            best_target,
            pending: candidates.skip(n),
            target_peer: None,
            peers: Seq::empty(),
        }),
        forall|i: int|
            n <= i < candidates.len() ==> !matches_best(
                best_target,
                fetch,
                #[trigger] candidates[i],
            ),
    ensures
        search.run(fetch).outcome() == best_target,
    decreases candidates.len() - n,
{
    if n < candidates.len() {
        assert(search.pending[0] == candidates[n]);
        assert(candidates.skip(n).drop_first() =~= candidates.skip(n + 1));
        assert(!matches_best(best_target, fetch, candidates[n]));
        lemma_run_without_match(
            best_target,
            candidates,
            fetch,
            n + 1,
            search.judged(search.reply(fetch)),
        );
    }
}

/// What a search that has judged the first `n` candidates comes to, where the one at `k` is the
/// first that matches.
proof fn lemma_run_from(
    best_target: SyncTargetView,
    candidates: Seq<PeerInfo>,
    fetch: spec_fn(BlockIdsRequest) -> Option<HashValue>,
    n: int,
    k: int,
    search: SearchView,
)
    requires
        first_match(best_target, fetch, candidates, k),
        0 <= n <= candidates.len(),
        search.best_target == best_target,
        search.pending == candidates.skip(n),
        search.target_peer == if n <= k {
            None
        } else {
            Some(candidates[k])
        },
        search.peers == marked(
            peer_ids(candidates.take(n)),
            confirmers(best_target, fetch, candidates, k).take(n),
        ),
    ensures
        search.run(fetch).outcome() == SyncTargetView::of_status(
            candidates[k].status(),
            marked(peer_ids(candidates), confirmers(best_target, fetch, candidates, k)),
        ),
    decreases candidates.len() - n,
{
    let marks = confirmers(best_target, fetch, candidates, k);
    if n < candidates.len() {
        let next = search.judged(search.reply(fetch));
        assert(search.pending[0] == candidates[n]);
        assert(candidates.skip(n).drop_first() =~= candidates.skip(n + 1));
        assert(marks.take(n + 1).drop_last() =~= marks.take(n));
        assert(marks.take(n + 1).last() == marks[n]);
        let all_ids = peer_ids(candidates.take(n + 1));
        assert(all_ids.drop_last() =~= peer_ids(candidates.take(n)));
        assert(all_ids.last() == candidates[n].peer_id);
        if n < k {
            assert(!matches_best(best_target, fetch, candidates[n]));
        }
        assert(search.eligible(search.reply(fetch)) == marks[n]);
        lemma_run_from(best_target, candidates, fetch, n + 1, k, next);
    } else {
        assert(candidates.take(n) =~= candidates);
        assert(marks.take(n) =~= marks);
    }
}

/// Where nothing is marked, nothing is taken.
proof fn lemma_unmarked<A>(s: Seq<A>, marks: Seq<bool>)
    requires
        s.len() == marks.len(),
        forall|i: int| 0 <= i < marks.len() ==> !#[trigger] marks[i],
    ensures
        marked(s, marks) == Seq::<A>::empty(),
    decreases s.len(),
{
    if s.len() > 0 {
        assert(!marks[marks.len() - 1]);
        assert forall|i: int| 0 <= i < marks.drop_last().len() implies !#[trigger] marks.drop_last()[i]
            by {
            assert(!marks[i]);
        }
        lemma_unmarked(s.drop_last(), marks.drop_last());
    }
}

} // verus!
