//! The choice of a block to synchronize to among those that the best peers offer.

use crate::lemmas::{lemma_filter_has, lemma_filter_snoc};
use crate::order::{lemma_sorted_last, sort_by_key, stable_sort, Ranked};
use crate::roster::{best_infos, lemma_bests_nonempty};
use crate::selector::PeerSelector;
use crate::types::{ChainStatus, PeerId, PeerInfo, SyncTarget, SyncTargetView, U256};
use vstd::prelude::*;

verus! {

/// The test for offering the given chain.
pub open spec fn offers(status: ChainStatus) -> spec_fn(PeerInfo) -> bool {
    |peer: PeerInfo| peer.status() == status
}

/// The identities of the peers, in order.
pub open spec fn peer_ids(peers: Seq<PeerInfo>) -> Seq<PeerId> {
    peers.map_values(|peer: PeerInfo| peer.peer_id)
}

/// The identities of the peers that offer the given chain, in order.
pub open spec fn backers(peers: Seq<PeerInfo>, status: ChainStatus) -> Seq<PeerId> {
    peer_ids(peers.filter(offers(status)))
}

/// The peer at `i` is the first to offer the given chain.
pub open spec fn first_offer(peers: Seq<PeerInfo>, status: ChainStatus, i: int) -> bool {
    &&& 0 <= i < peers.len()
    &&& peers[i].status() == status
    &&& forall|j: int| 0 <= j < i ==> (#[trigger] peers[j]).status() != status
}

/// Most peers offer the chain that the peer at `i` is the first to offer. Of chains that equally
/// many peers offer, it is the one that was offered first last.
pub open spec fn majority(peers: Seq<PeerInfo>, i: int) -> bool {
    &&& first_offer(peers, peers[i].status(), i)
    &&& forall|j: int|
        first_offer(peers, (#[trigger] peers[j]).status(), j) ==> {
            ||| backers(peers, peers[j].status()).len() < backers(peers, peers[i].status()).len()
            ||| {
                &&& backers(peers, peers[j].status()).len() == backers(
                    peers,
                    peers[i].status(),
                ).len()
                &&& j <= i
            }
        }
}

/// The target is the chain that most of the peers offer, with the peers that offer it.
pub open spec fn is_majority_target(peers: Seq<PeerInfo>, target: SyncTargetView) -> bool {
    exists|i: int| #[trigger]
        majority(peers, i) && target == SyncTargetView::of_status(
            peers[i].status(),
            backers(peers, peers[i].status()),
        )
}

/// A chain and the peers that offer it.
struct StatusGroup {
    status: ChainStatus,
    peers: Vec<PeerId>,
}

impl Ranked for StatusGroup {
    closed spec fn rank(&self) -> nat {
        self.peers@.len()
    }

    fn key(&self) -> (u128, u128) {
        (0, self.peers.len() as u128)
    }
}

/// The groups hold each chain that the peers offer once, with the peers that offer it, and the
/// chains follow each other as the peers first offer them.
spec fn grouped(peers: Seq<PeerInfo>, groups: Seq<StatusGroup>, firsts: Seq<int>) -> bool {
    &&& firsts.len() == groups.len()
    &&& forall|g: int|
        0 <= g < groups.len() ==> {
            &&& first_offer(peers, (#[trigger] groups[g]).status, firsts[g])
            &&& groups[g].peers@ == backers(peers, groups[g].status)
        }
    &&& forall|g: int, h: int| 0 <= g < h < groups.len() ==> firsts[g] < firsts[h]
    &&& forall|j: int|
        0 <= j < peers.len() ==> exists|g: int|
            0 <= g < groups.len() && (#[trigger] groups[g]).status == (#[trigger] peers[j]).status()
}

/// How the backers of a chain change when one more peer comes.
proof fn lemma_backers_push(peers: Seq<PeerInfo>, peer: PeerInfo, status: ChainStatus)
    ensures
        backers(peers.push(peer), status) == if peer.status() == status {
            backers(peers, status).push(peer.peer_id)
        } else {
            backers(peers, status)
        },
{
    lemma_filter_snoc(peers.push(peer), offers(status));
    assert(peers.push(peer).drop_last() =~= peers);
    let before = peers.filter(offers(status));
    assert(peer_ids(before.push(peer)) =~= peer_ids(before).push(peer.peer_id));
}

/// A chain that no peer offers has no backers.
proof fn lemma_no_backers(peers: Seq<PeerInfo>, status: ChainStatus)
    requires
        forall|j: int| 0 <= j < peers.len() ==> (#[trigger] peers[j]).status() != status,
    ensures
        backers(peers, status) == Seq::<PeerId>::empty(),
{
    let f = peers.filter(offers(status));
    if f.len() > 0 {
        assert(f.contains(f[0]));
        lemma_filter_has(peers, offers(status), f[0]);
        let j = choose|j: int| 0 <= j < peers.len() && peers[j] == f[0];
        assert(peers[j].status() != status);
    }
    assert(backers(peers, status) =~= Seq::<PeerId>::empty());
}

/// A chain is first offered in one place.
proof fn lemma_first_offer_unique(peers: Seq<PeerInfo>, status: ChainStatus, i: int, j: int)
    requires
        first_offer(peers, status, i),
        first_offer(peers, status, j),
    ensures
        i == j,
{
    if i < j {
        assert(peers[i].status() != status);
    }
    if j < i {
        assert(peers[j].status() != status);
    }
}

/// There is only one chain that most peers offer.
pub proof fn law_majority_is_unique(peers: Seq<PeerInfo>, i: int, j: int)
    requires
        majority(peers, i),
        majority(peers, j),
    ensures
        i == j,
{
    assert(first_offer(peers, peers[i].status(), i));
    assert(first_offer(peers, peers[j].status(), j));
}

/// Puts the peers into groups by the chains that they offer.
fn group_by_status(peers: &Vec<PeerInfo>) -> (groups: Vec<StatusGroup>)
    ensures
        exists|firsts: Seq<int>| grouped(peers@, groups@, firsts),
        peers@.len() > 0 ==> groups@.len() > 0,
{
    let ghost s = peers@;
    let ghost mut firsts: Seq<int> = Seq::empty();
    let mut groups: Vec<StatusGroup> = Vec::new();
    let mut i: usize = 0;
    while i < peers.len()
        invariant
            i <= peers.len(),
            s == peers@,
            grouped(s.take(i as int), groups@, firsts),
            i > 0 ==> groups@.len() > 0,
        decreases peers.len() - i,
    {
        let peer = peers[i];
        let ghost done = s.take(i as int);
        let ghost before = groups@;
        assert(s.take(i as int + 1) =~= done.push(peer));
        let mut g: usize = 0;
        while g < groups.len() && groups[g].status != peer.chain_info().status
            invariant
                g <= groups.len(),
                groups@ == before,
                forall|h: int| 0 <= h < g ==> (#[trigger] groups@[h]).status != peer.status(),
            decreases groups.len() - g,
        {
            g += 1;
        }
        if g < groups.len() {
            let group = &mut groups[g];
            group.peers.push(peer.peer_id());
            proof {
                lemma_group_grows(done, peer, before, groups@, firsts, g as int);
            }
        } else {
            let mut backers_of_new: Vec<PeerId> = Vec::new();
            backers_of_new.push(peer.peer_id());
            groups.push(StatusGroup { status: peer.chain_info().status, peers: backers_of_new });
            proof {
                lemma_group_starts(done, peer, before, groups@, firsts);
                firsts = firsts.push(i as int);
            }
        }
        i += 1;
    }
    assert(s.take(s.len() as int) =~= s);
    groups
}

/// The groups stay right when a peer joins its group.
proof fn lemma_group_grows(
    peers: Seq<PeerInfo>,
    peer: PeerInfo,
    before: Seq<StatusGroup>,
    after: Seq<StatusGroup>,
    firsts: Seq<int>,
    g: int,
)
    requires
        grouped(peers, before, firsts),
        0 <= g < before.len(),
        before[g].status == peer.status(),
        after.len() == before.len(),
        after[g].status == before[g].status,
        after[g].peers@ == before[g].peers@.push(peer.peer_id),
        forall|h: int| 0 <= h < before.len() && h != g ==> after[h] == before[h],
    ensures
        grouped(peers.push(peer), after, firsts),
{
    let longer = peers.push(peer);
    assert forall|h: int| 0 <= h < after.len() implies {
        &&& first_offer(longer, (#[trigger] after[h]).status, firsts[h])
        &&& after[h].peers@ == backers(longer, after[h].status)
    } by {
        lemma_backers_push(peers, peer, before[h].status);
        assert(after[h].status == before[h].status);
        assert(first_offer(peers, before[h].status, firsts[h]));
        let f = firsts[h];
        assert forall|j: int| 0 <= j < f implies (#[trigger] longer[j]).status() != before[h].status
            by {
            assert(longer[j] == peers[j]);
        }
        if h != g {
            assert(before[h].status != peer.status()) by {
                if before[h].status == peer.status() {
                    assert(first_offer(peers, before[g].status, firsts[g]));
                    lemma_first_offer_unique(peers, before[g].status, firsts[g], firsts[h]);
                    if h < g {
                        assert(firsts[h] < firsts[g]);
                    } else {
                        assert(firsts[g] < firsts[h]);
                    }
                }
            }
        }
    }
    assert forall|j: int| 0 <= j < longer.len() implies exists|h: int|
        0 <= h < after.len() && (#[trigger] after[h]).status == (#[trigger] longer[j]).status() by {
        if j < peers.len() {
            let h = choose|h: int|
                0 <= h < before.len() && (#[trigger] before[h]).status == peers[j].status();
            assert(after[h].status == before[h].status);
        } else {
            assert(after[g].status == longer[j].status());
        }
    }
}

/// The groups stay right when a peer starts a new group.
proof fn lemma_group_starts(
    peers: Seq<PeerInfo>,
    peer: PeerInfo,
    before: Seq<StatusGroup>,
    after: Seq<StatusGroup>,
    firsts: Seq<int>,
)
    requires
        grouped(peers, before, firsts),
        forall|h: int| 0 <= h < before.len() ==> (#[trigger] before[h]).status != peer.status(),
        after.len() == before.len() + 1,
        after.last().status == peer.status(),
        after.last().peers@ == seq![peer.peer_id],
        forall|h: int| 0 <= h < before.len() ==> after[h] == before[h],
    ensures
        grouped(peers.push(peer), after, firsts.push(peers.len() as int)),
{
    let longer = peers.push(peer);
    let all_firsts = firsts.push(peers.len() as int);
    let last = before.len() as int;
    assert forall|j: int| 0 <= j < peers.len() implies (#[trigger] peers[j]).status()
        != peer.status() by {
        let h = choose|h: int|
            0 <= h < before.len() && (#[trigger] before[h]).status == peers[j].status();
        assert(before[h].status != peer.status());
    }
    assert forall|h: int| 0 <= h < after.len() implies {
        &&& first_offer(longer, (#[trigger] after[h]).status, all_firsts[h])
        &&& after[h].peers@ == backers(longer, after[h].status)
    } by {
        lemma_backers_push(peers, peer, after[h].status);
        if h < last {
            assert(after[h] == before[h]);
            assert(first_offer(peers, before[h].status, firsts[h]));
            assert forall|j: int| 0 <= j < firsts[h] implies (#[trigger] longer[j]).status()
                != before[h].status by {
                assert(longer[j] == peers[j]);
            }
        } else {
            lemma_no_backers(peers, peer.status());
            assert forall|j: int| 0 <= j < peers.len() implies (#[trigger] longer[j]).status()
                != peer.status() by {
                assert(longer[j] == peers[j]);
            }
            assert(Seq::<PeerId>::empty().push(peer.peer_id) =~= seq![peer.peer_id]);
        }
    }
    assert forall|g: int, h: int| 0 <= g < h < after.len() implies all_firsts[g] < all_firsts[h] by {
        assert(first_offer(peers, before[g].status, firsts[g]));
    }
    assert forall|j: int| 0 <= j < longer.len() implies exists|h: int|
        0 <= h < after.len() && (#[trigger] after[h]).status == (#[trigger] longer[j]).status() by {
        if j < peers.len() {
            let h = choose|h: int|
                0 <= h < before.len() && (#[trigger] before[h]).status == peers[j].status();
            assert(after[h].status == before[h].status);
        } else {
            assert(after[last].status == longer[j].status());
        }
    }
}

/// The last of the largest groups is that of the chain that most peers offer.
proof fn lemma_largest_group(
    peers: Seq<PeerInfo>,
    groups: Seq<StatusGroup>,
    firsts: Seq<int>,
    sorted: Seq<StatusGroup>,
)
    requires
        grouped(peers, groups, firsts),
        groups.len() > 0,
        stable_sort(groups, sorted),
    ensures
        sorted.len() == groups.len(),
        is_majority_target(
            peers,
            SyncTargetView::of_status(sorted.last().status, sorted.last().peers@),
        ),
{
    let l = lemma_sorted_last(groups, sorted);
    let group = groups[l];
    let i = firsts[l];
    assert(first_offer(peers, group.status, i));
    assert forall|j: int| first_offer(peers, (#[trigger] peers[j]).status(), j) implies {
        ||| backers(peers, peers[j].status()).len() < backers(peers, peers[i].status()).len()
        ||| {
            &&& backers(peers, peers[j].status()).len() == backers(peers, peers[i].status()).len()
            &&& j <= i
        }
    } by {
        let g = choose|g: int|
            0 <= g < groups.len() && (#[trigger] groups[g]).status == peers[j].status();
        assert(first_offer(peers, groups[g].status, firsts[g]));
        lemma_first_offer_unique(peers, groups[g].status, firsts[g], j);
        assert(groups[g].rank() <= group.rank());
        if g > l {
            assert(groups[g].rank() < group.rank());
        } else if g < l {
            assert(firsts[g] < firsts[l]);
        }
    }
    assert(majority(peers, i));
}

/// The chain that most of the peers offer, with the peers that offer it. Of chains that equally
/// many peers offer, it is the one that was offered first last. None is where there is no peer.
pub fn majority_target(peers: &Vec<PeerInfo>) -> (r: Option<SyncTarget>)
    ensures
        match r {
            Some(target) => is_majority_target(peers@, target@),
            None => peers@.len() == 0,
        },
{
    let mut groups = group_by_status(peers);
    let ghost before = groups@;
    let ghost firsts = choose|firsts: Seq<int>| grouped(peers@, before, firsts);
    if groups.len() == 0 {
        return None;
    }
    sort_by_key(&mut groups);
    proof {
        lemma_largest_group(peers@, before, firsts, groups@);
    }
    match groups.pop() {
        Some(group) => Some(
            SyncTarget {
                target_id: group.status.head.id_and_number(),
                block_info: group.status.info,
                peers: group.peers,
            },
        ),
        None => None,
    }
}

/// The block to synchronize to: of the chains with the greatest total difficulty, if that is above
/// `min_difficulty`, the one that most peers offer.
pub fn get_best_target(selector: &PeerSelector, min_difficulty: U256) -> (r: Option<SyncTarget>)
    ensures
        match best_infos(selector@.details, min_difficulty@) {
            Some(bests) => r matches Some(target) && is_majority_target(bests, target@),
            None => r is None,
        },
{
    proof {
        lemma_bests_nonempty(selector@.details, min_difficulty@);
    }
    match selector.bests(min_difficulty) {
        Some(best_peers) => majority_target(&best_peers),
        None => None,
    }
}

} // verus!
