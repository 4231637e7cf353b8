//! What is asked of peers and of the local store, and what is made of the replies.

use crate::types::{Block, BlockInfo, BlockNumber, HashValue, PeerId, SyncBlockData};
use vstd::prelude::*;

verus! {

/// A request for the hashes of consecutive blocks of a chain.
#[derive(Clone, Copy, Debug, PartialEq, Eq, Structural)]
pub struct BlockIdsRequest {
    /// The peer to ask, or any where it is none.
    pub peer: Option<PeerId>,
    pub start_number: BlockNumber,
    /// Whether the blocks go down from the first one.
    pub reverse: bool,
    pub max_size: u64,
}

impl BlockIdsRequest {
    /// The request for the hash of one block.
    pub open spec fn spec_single(peer: Option<PeerId>, number: BlockNumber) -> BlockIdsRequest {
        BlockIdsRequest { peer, start_number: number, reverse: false, max_size: 1 }
    }

    /// The request for the hash of one block.
    pub fn single(peer: Option<PeerId>, number: BlockNumber) -> (r: BlockIdsRequest)
        ensures
            r == BlockIdsRequest::spec_single(peer, number),
    {
        BlockIdsRequest { peer, start_number: number, reverse: false, max_size: 1 }
    }
}

/// The block hash in the reply to a request for one: the last one, if any.
pub fn single_block_id(ids: Vec<HashValue>) -> (r: Option<HashValue>)
    ensures
        r == if ids@.len() > 0 {
            Some(ids@.last())
        } else {
            None
        },
{
    let mut ids = ids;
    ids.pop()
}

/// The block info in the reply to a request for one: the last one, if any is there and known.
pub fn single_block_info(infos: Vec<Option<BlockInfo>>) -> (r: Option<BlockInfo>)
    ensures
        r == if infos@.len() > 0 {
            infos@.last()
        } else {
            None
        },
{
    let mut infos = infos;
    match infos.pop() {
        Some(info) => info,
        None => None,
    }
}

/// A requested block that is missing in the reply.
#[derive(Clone, Copy, Debug, PartialEq, Eq, Structural)]
pub struct MissingBlock {
    pub id: HashValue,
}

impl MissingBlock {
    /// The error's text, given the text of the block's hash.
    pub open spec fn text(self, id: Seq<char>) -> Seq<char> {
        "Get block by id: "@ + id + " failed, remote node return None"@
    }

    /// Writes the error's text. `id` is the text of the block's hash.
    pub fn message(&self, id: &str) -> (r: String)
        ensures
            r@ == self.text(id@),
    {
        "Get block by id: ".to_string().concat(id).concat(" failed, remote node return None")
    }
}

/// How many of the requested blocks the reply speaks of.
pub open spec fn answered<B>(ids: Seq<HashValue>, blocks: Seq<Option<B>>) -> int {
    if ids.len() < blocks.len() {
        ids.len() as int
    } else {
        blocks.len() as int
    }
}

/// Takes the requested blocks out of the reply. The reply lists them in the order of the request.
/// The first block that is missing in it is an error. What either list has beyond the other one's
/// length is ignored.
#[verifier::loop_isolation(false)]
pub fn collect_blocks<B>(ids: &Vec<HashValue>, blocks: Vec<Option<B>>) -> (r: Result<
    Vec<B>,
    MissingBlock,
>)
    ensures
        match r {
            Ok(found) => {
                &&& found@.len() == answered(ids@, blocks@)
                &&& forall|i: int|
                    0 <= i < found@.len() ==> blocks@[i] == Some(#[trigger] found@[i])
            },
            Err(missing) => exists|k: int|
                {
                    &&& 0 <= k < answered(ids@, blocks@)
                    &&& #[trigger] blocks@[k] is None
                    &&& missing.id == ids@[k]
                    &&& forall|i: int| 0 <= i < k ==> #[trigger] blocks@[i] is Some
                },
        },
{
    let ghost all = blocks@;
    let mut blocks = blocks;
    if blocks.len() > ids.len() {
        blocks.truncate(ids.len());
    }
    let ghost replied = blocks@;
    let mut found: Vec<B> = Vec::new();
    for block in it: blocks
        invariant
            it.seq() == replied,
            replied.len() == answered(ids@, all),
            replied.len() <= ids@.len(),
            forall|i: int| 0 <= i < replied.len() ==> replied[i] == #[trigger] all[i],
            found@.len() == it.index(),
            forall|i: int| 0 <= i < found@.len() ==> all[i] == Some(#[trigger] found@[i]),
    {
        match block {
            Some(block) => {
                found.push(block);
            },
            None => {
                let k: usize = found.len();
                assert(all[k as int] is None);
                assert forall|i: int| 0 <= i < k implies #[trigger] all[i] is Some by {
                    assert(all[i] == Some(found@[i]));
                }
                return Err(MissingBlock { id: ids[k] });
            },
        }
    }
    Ok(found)
}

/// The hashes of the blocks that were found, in order.
pub open spec fn found_ids(blocks: Seq<Option<Block>>) -> Seq<HashValue>
    decreases blocks.len(),
{
    if blocks.len() == 0 {
        Seq::empty()
    } else {
        match blocks.last() {
            Some(block) => found_ids(blocks.drop_last()).push(block.header.id),
            None => found_ids(blocks.drop_last()),
        }
    }
}

/// The hashes of the blocks that were found, whose infos are to be looked up in this order.
pub fn infos_to_load(blocks: &Vec<Option<Block>>) -> (r: Vec<HashValue>)
    ensures
        r@ == found_ids(blocks@),
{
    let ghost all = blocks@;
    let mut ids: Vec<HashValue> = Vec::new();
    let mut i: usize = 0;
    while i < blocks.len()
        invariant
            i <= blocks.len(),
            all == blocks@,
            ids@ == found_ids(all.take(i as int)),
        decreases blocks.len() - i,
    {
        assert(all.take(i as int + 1).drop_last() =~= all.take(i as int));
        if let Some(block) = &blocks[i] {
            ids.push(block.id());
        }
        i += 1;
    }
    assert(all.take(all.len() as int) =~= all);
    ids
}

/// The blocks with their infos, where each block that was found takes one info, in order.
pub open spec fn with_infos(
    blocks: Seq<Option<Block>>,
    infos: Seq<Option<BlockInfo>>,
) -> Seq<Option<SyncBlockData>>
    decreases blocks.len(),
{
    if blocks.len() == 0 {
        Seq::empty()
    } else {
        match blocks.last() {
            Some(block) => with_infos(blocks.drop_last(), infos.drop_last()).push(
                Some(SyncBlockData { block, info: infos.last(), peer_id: None }),
            ),
            None => with_infos(blocks.drop_last(), infos).push(None),
        }
    }
}

/// Joins the blocks that were found with their infos. Other blocks stay missing.
pub fn join_infos(blocks: Vec<Option<Block>>, infos: Vec<Option<BlockInfo>>) -> (r: Vec<
    Option<SyncBlockData>,
>)
    requires
        infos@.len() == found_ids(blocks@).len(),
    ensures
        r@ == with_infos(blocks@, infos@),
{
    let ghost all = blocks@;
    let mut joined: Vec<Option<SyncBlockData>> = Vec::new();
    let mut used: usize = 0;
    for block in it: blocks
        invariant
            it.seq() == all,
            infos@.len() == found_ids(all).len(),
            used == found_ids(all.take(it.index())).len(),
            used <= infos@.len(),
            joined@ == with_infos(all.take(it.index()), infos@.take(used as int)),
    {
        proof {
            let i = it.index();
            lemma_found_ids_monotone(all, i + 1, all.len() as int);
            assert(all.take(all.len() as int) =~= all);
            assert(all.take(i + 1).drop_last() =~= all.take(i));
            assert(all.take(i + 1).last() == block);
            if block is Some {
                assert(infos@.take(used as int + 1).drop_last() =~= infos@.take(used as int));
            }
        }
        match block {
            Some(block) => {
                joined.push(Some(SyncBlockData::new(block, infos[used], None)));
                used += 1;
            },
            None => {
                joined.push(None);
            },
        }
    }
    assert(all.take(all.len() as int) =~= all);
    assert(infos@.take(infos@.len() as int) =~= infos@);
    joined
}

/// In a longer prefix at least as many blocks were found.
proof fn lemma_found_ids_monotone(blocks: Seq<Option<Block>>, i: int, j: int)
    requires
        0 <= i <= j <= blocks.len(),
    ensures
        found_ids(blocks.take(i)).len() <= found_ids(blocks.take(j)).len(),
    decreases j - i,
{
    if i < j {
        lemma_found_ids_monotone(blocks, i, j - 1);
        assert(blocks.take(j).drop_last() =~= blocks.take(j - 1));
    }
}

} // verus!
