//! The data about chains and peers that synchronization reads.

use vstd::prelude::*;

verus! {

/// A block's height in its chain.
pub type BlockNumber = u64;

/// The number that the words `hi` and `lo` write, `hi` being the more significant one.
pub open spec fn words_value(hi: u128, lo: u128) -> nat {
    (hi * 0x1_0000_0000_0000_0000_0000_0000_0000_0000 + lo) as nat
}

/// An unsigned integer of 256 bits in two words, such as a chain's total difficulty.
#[derive(Clone, Copy, Debug, PartialEq, Eq, Structural)]
pub struct U256 {
    pub hi: u128,
    pub lo: u128,
}

impl View for U256 {
    type V = nat;

    open spec fn view(&self) -> nat {
        words_value(self.hi, self.lo)
    }
}

impl U256 {
    /// The number zero.
    pub fn zero() -> (r: U256)
        ensures
            r@ == 0,
    {
        U256 { hi: 0, lo: 0 }
    }

    /// Tells whether `self` is greater than `other`.
    pub fn exceeds(&self, other: &U256) -> (r: bool)
        ensures
            r == (self@ > other@),
            r == (self.hi > other.hi || (self.hi == other.hi && self.lo > other.lo)),
    {
        self.hi > other.hi || (self.hi == other.hi && self.lo > other.lo)
    }
}

/// A hash of 32 bytes in two words.
#[derive(Clone, Copy, Debug, PartialEq, Eq, Structural)]
pub struct HashValue {
    pub hi: u128,
    pub lo: u128,
}

/// A peer's identity, as a number of 384 bits in three words.
#[derive(Clone, Copy, Debug, PartialEq, Eq, Structural)]
pub struct PeerId {
    pub hi: u128,
    pub mid: u128,
    pub lo: u128,
}

/// A block's hash and height.
#[derive(Clone, Copy, Debug, PartialEq, Eq, Structural)]
pub struct BlockIdAndNumber {
    pub id: HashValue,
    pub number: BlockNumber,
}

impl BlockIdAndNumber {
    /// Pairs a block's hash with its height.
    pub fn new(id: HashValue, number: BlockNumber) -> (r: BlockIdAndNumber)
        ensures
            r == (BlockIdAndNumber { id, number }),
    {
        BlockIdAndNumber { id, number }
    }
}

/// A block header, known by the hash of its content, and the block's height.
#[derive(Clone, Copy, Debug, PartialEq, Eq, Structural)]
pub struct BlockHeader {
    pub id: HashValue,
    pub number: BlockNumber,
}

impl BlockHeader {
    /// The hash and height of the header's block.
    pub open spec fn spec_id_and_number(self) -> BlockIdAndNumber {
        BlockIdAndNumber { id: self.id, number: self.number }
    }

    /// The hash and height of the header's block.
    pub fn id_and_number(&self) -> (r: BlockIdAndNumber)
        ensures
            r == self.spec_id_and_number(),
            r.id == self.id,
            r.number == self.number,
    {
        BlockIdAndNumber::new(self.id, self.number)
    }
}

/// A Merkle accumulator, known by its root hash and its size.
#[derive(Clone, Copy, Debug, PartialEq, Eq, Structural)]
pub struct AccumulatorInfo {
    pub accumulator_root: HashValue,
    pub num_leaves: u64,
    pub num_nodes: u64,
}

/// What a node keeps about a block beside the block itself.
#[derive(Clone, Copy, Debug, PartialEq, Eq, Structural)]
pub struct BlockInfo {
    pub block_id: HashValue,
    /// The difficulty of the block and of all its ancestors together.
    pub total_difficulty: U256,
    pub txn_accumulator_info: AccumulatorInfo,
    pub block_accumulator_info: AccumulatorInfo,
}

/// The newest block of a chain.
#[derive(Clone, Copy, Debug, PartialEq, Eq, Structural)]
pub struct ChainStatus {
    pub head: BlockHeader,
    pub info: BlockInfo,
}

/// What a peer tells about its chain.
#[derive(Clone, Copy, Debug, PartialEq, Eq, Structural)]
pub struct ChainInfo {
    pub status: ChainStatus,
}

/// A peer and the chain that it offers.
#[derive(Clone, Copy, Debug, PartialEq, Eq, Structural)]
pub struct PeerInfo {
    pub peer_id: PeerId,
    pub chain_info: ChainInfo,
}

impl PeerInfo {
    /// The state of the peer's chain.
    pub open spec fn status(self) -> ChainStatus {
        self.chain_info.status
    }

    /// The peer's identity.
    pub fn peer_id(&self) -> (r: PeerId)
        ensures
            r == self.peer_id,
    {
        self.peer_id
    }

    /// The peer's chain.
    pub fn chain_info(&self) -> (r: &ChainInfo)
        ensures
            *r == self.chain_info,
    {
        &self.chain_info
    }

    /// The header of the newest block of the peer's chain.
    pub fn latest_header(&self) -> (r: &BlockHeader)
        ensures
            *r == self.status().head,
            *r == self.chain_info.status.head,
    {
        &self.chain_info.status.head
    }

    /// The hash of the newest block of the peer's chain.
    pub fn block_id(&self) -> (r: HashValue)
        ensures
            r == self.status().head.id,
            r == self.chain_info.status.head.id,
    {
        self.chain_info.status.head.id
    }

    /// The height of the newest block of the peer's chain.
    pub fn block_number(&self) -> (r: BlockNumber)
        ensures
            r == self.status().head.number,
            r == self.chain_info.status.head.number,
    {
        self.chain_info.status.head.number
    }

    /// The total difficulty of the peer's chain.
    pub open spec fn difficulty(self) -> nat {
        self.status().info.total_difficulty@
    }

    /// The total difficulty of the peer's chain.
    pub fn total_difficulty(&self) -> (r: U256)
        ensures
            r == self.status().info.total_difficulty,
            r == self.chain_info.status.info.total_difficulty,
            r@ == self.difficulty(),
    {
        self.chain_info.status.info.total_difficulty
    }
}

/// A block to synchronize to and the peers that offer it.
#[derive(Debug)]
pub struct SyncTarget {
    pub target_id: BlockIdAndNumber,
    pub block_info: BlockInfo,
    pub peers: Vec<PeerId>,
}

/// What a [`SyncTarget`] says.
#[verifier::ext_equal]
pub struct SyncTargetView {
    pub target_id: BlockIdAndNumber,
    pub block_info: BlockInfo,
    pub peers: Seq<PeerId>,
}

impl View for SyncTarget {
    type V = SyncTargetView;

    open spec fn view(&self) -> SyncTargetView {
        SyncTargetView {
            target_id: self.target_id,
            block_info: self.block_info,
            peers: self.peers@,
        }
    }
}

impl Clone for SyncTarget {
    fn clone(&self) -> (r: SyncTarget)
        ensures
            r@ == self@,
            r.target_id == self.target_id,
            r.block_info == self.block_info,
            r.peers@ == self.peers@,
    {
        let peers = self.peers.clone();
        assert(peers@ =~= self.peers@);
        SyncTarget { target_id: self.target_id, block_info: self.block_info, peers }
    }
}

impl SyncTargetView {
    /// The target that the newest block of a chain is, offered by the given peers.
    pub open spec fn of_status(status: ChainStatus, peers: Seq<PeerId>) -> SyncTargetView {
        SyncTargetView {
            target_id: status.head.spec_id_and_number(),
            block_info: status.info,
            peers,
        }
    }
}

/// A block: its header and its encoded body.
#[derive(Debug)]
pub struct Block {
    pub header: BlockHeader,
    pub body: Vec<u8>,
}

impl Block {
    /// The block's hash.
    pub fn id(&self) -> (r: HashValue)
        ensures
            r == self.header.id,
    {
        self.header.id
    }

    /// The two blocks have the same header and the same body.
    pub open spec fn same(self, other: Block) -> bool {
        self.header == other.header && self.body@ == other.body@
    }
}

impl Clone for Block {
    fn clone(&self) -> (r: Block)
        ensures
            r.same(*self),
            r.header == self.header,
            r.body@ == self.body@,
    {
        let body = self.body.clone();
        assert(body@ =~= self.body@);
        Block { header: self.header, body }
    }
}

/// A block to connect, what is known about it already, and the peer that it came from.
#[derive(Debug)]
pub struct SyncBlockData {
    pub block: Block,
    pub info: Option<BlockInfo>,
    pub peer_id: Option<PeerId>,
}

impl SyncBlockData {
    /// Joins a block with what is known about it.
    pub fn new(block: Block, info: Option<BlockInfo>, peer_id: Option<PeerId>) -> (r: SyncBlockData)
        ensures
            r == (SyncBlockData { block, info, peer_id }),
    {
        SyncBlockData { block, info, peer_id }
    }
}

impl Clone for SyncBlockData {
    fn clone(&self) -> (r: SyncBlockData)
        ensures
            r.block.same(self.block),
            r.block.header == self.block.header,
            r.block.body@ == self.block.body@,
            r.info == self.info,
            r.peer_id == self.peer_id,
    {
        SyncBlockData { block: self.block.clone(), info: self.info, peer_id: self.peer_id }
    }
}

/// A block has been connected to the chain.
#[derive(Debug)]
pub struct BlockConnectedEvent {
    pub block: Block,
}

impl Clone for BlockConnectedEvent {
    fn clone(&self) -> (r: BlockConnectedEvent)
        ensures
            r.block.same(self.block),
            r.block.header == self.block.header,
            r.block.body@ == self.block.body@,
    {
        BlockConnectedEvent { block: self.block.clone() }
    }
}

/// The newest block that the node's chain shares with the target has been found.
#[derive(Clone, Copy, Debug, PartialEq, Eq, Structural)]
pub struct AncestorEvent {
    pub ancestor: BlockIdAndNumber,
}

} // verus!
