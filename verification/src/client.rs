//! Blocks, pieces and the requests that are under way.

use crate::search::{first_where, lemma_first_where_is};
use crate::trusted::{hex_encode, hex_text, sha1, sha1_digest};
use vstd::prelude::*;

pub mod account;
pub mod laws;
pub mod layout;
pub mod manager;
pub mod model;
pub mod progress;
pub mod run;
pub mod schedule;

pub use manager::{PendingRequest, PieceManager, PieceWrite};

verus! {

/// The size of a block request: 2^14 bytes.
pub const REQUEST_SIZE: u32 = 16384;

/// How far a block has come.
#[derive(Debug, Clone, Copy, PartialEq, Eq, Structural)]
pub enum Status {
    Missing,
    Pending,
    Retrieved,
}

/// The unit of transfer: a range of a piece.
#[derive(Debug, Clone, PartialEq, Eq)]
pub struct Block {
    pub piece: u64,
    pub offset: u64,
    pub length: u64,
    pub status: Status,
    pub data: Option<Vec<u8>>,
}

/// The mathematical model of a block.
pub struct BlockView {
    pub piece: u64,
    pub offset: u64,
    pub length: u64,
    pub status: Status,
    pub data: Option<Seq<u8>>,
}

impl View for Block {
    type V = BlockView;

    open spec fn view(&self) -> BlockView {
        BlockView {
            piece: self.piece,
            offset: self.offset,
            length: self.length,
            status: self.status,
            data: match self.data {
                Some(d) => Some(d@),
                None => None,
            },
        }
    }
}

impl Block {
    /// A block that has not been asked for yet.
    pub fn new(piece: u64, offset: u64, length: u64) -> (block: Block)
        ensures
            block@ == (BlockView { piece, offset, length, status: Status::Missing, data: None }),
    {
        Block { piece, offset, length, status: Status::Missing, data: None }
    }
}

/// A copy of `block`.
pub fn copy_block(block: &Block) -> (copy: Block)
    ensures
        copy@ == block@,
{
    let data = match &block.data {
        Some(d) => Some(vstd::slice::slice_to_vec(d.as_slice())),
        None => None,
    };
    Block {
        piece: block.piece,
        offset: block.offset,
        length: block.length,
        status: block.status,
        data,
    }
}

/// A copy of `piece`.
pub fn copy_piece(piece: &Piece) -> (copy: Piece)
    ensures
        copy@ == piece@,
{
    let mut blocks: Vec<Block> = Vec::new();
    let mut k: usize = 0;
    while k < piece.blocks.len()
        invariant
            k <= piece.blocks.len(),
            blocks@.len() == k,
            forall|j: int| 0 <= j < k ==> (#[trigger] blocks@[j])@ == piece.blocks@[j]@,
        decreases piece.blocks.len() - k,
    {
        blocks.push(copy_block(&piece.blocks[k]));
        k += 1;
    }
    let copy = Piece { index: piece.index, blocks, hash_value: piece.hash_value.clone() };
    assert(copy@.blocks =~= piece@.blocks);
    copy
}

/// A piece of the content: the unit of verification.
#[derive(Debug, Clone)]
pub struct Piece {
    pub index: u32,
    pub blocks: Vec<Block>,
    pub hash_value: String,
}

/// The mathematical model of a piece.
pub struct PieceView {
    pub index: u32,
    pub blocks: Seq<BlockView>,
    pub hash_value: Seq<char>,
}

impl View for Piece {
    type V = PieceView;

    open spec fn view(&self) -> PieceView {
        PieceView {
            index: self.index,
            blocks: self.blocks@.map_values(|b: Block| b@),
            hash_value: self.hash_value@,
        }
    }
}

/// The data of the first `n` blocks, one after the other; nothing when one
/// of them holds no data.
pub open spec fn payload_upto(blocks: Seq<BlockView>, n: int) -> Option<Seq<u8>>
    decreases n,
{
    if n <= 0 {
        Some(Seq::empty())
    } else {
        match (payload_upto(blocks, n - 1), blocks[n - 1].data) {
            (Some(head), Some(data)) => Some(head + data),
            _ => None,
        }
    }
}

impl BlockView {
    /// The block with another status and other data.
    pub open spec fn with(self, status: Status, data: Option<Seq<u8>>) -> BlockView {
        BlockView { piece: self.piece, offset: self.offset, length: self.length, status, data }
    }
}

impl PieceView {
    /// The piece with other blocks.
    pub open spec fn with_blocks(self, blocks: Seq<BlockView>) -> PieceView {
        PieceView { index: self.index, blocks, hash_value: self.hash_value }
    }

    /// The position of the first block that is missing; the number of
    /// blocks when none is.
    pub open spec fn first_missing(self) -> int {
        first_where(self.blocks.len() as int, |k: int| self.blocks[k].status == Status::Missing)
    }

    /// The block that the next request asks for: the first missing block,
    /// marked as pending.
    pub open spec fn next_block(self) -> Option<BlockView> {
        let k = self.first_missing();
        if k < self.blocks.len() {
            Some(self.blocks[k].with(Status::Pending, self.blocks[k].data))
        } else {
            None
        }
    }

    /// The piece after its next block has been asked for.
    pub open spec fn requested(self) -> PieceView {
        match self.next_block() {
            Some(block) => self.with_blocks(self.blocks.update(self.first_missing(), block)),
            None => self,
        }
    }

    /// The position of the first block at `offset`; the number of blocks
    /// when there is none.
    pub open spec fn find_offset(self, offset: u64) -> int {
        first_where(self.blocks.len() as int, |k: int| self.blocks[k].offset == offset)
    }

    /// The piece after `data` has arrived for the block at `offset`.
    pub open spec fn received(self, offset: u64, data: Seq<u8>) -> PieceView {
        let k = self.find_offset(offset);
        if k < self.blocks.len() {
            self.with_blocks(
                self.blocks.update(k, self.blocks[k].with(Status::Retrieved, Some(data))),
            )
        } else {
            self
        }
    }

    /// The piece once it is verified: every block retrieved, the data
    /// handed on.
    pub open spec fn sealed(self) -> PieceView {
        self.with_blocks(
            Seq::new(self.blocks.len(), |k: int| self.blocks[k].with(Status::Retrieved, None)),
        )
    }

    /// The piece with every block missing again and without data.
    pub open spec fn cleared(self) -> PieceView {
        self.with_blocks(
            Seq::new(self.blocks.len(), |k: int| self.blocks[k].with(Status::Missing, None)),
        )
    }

    /// Whether every block has been retrieved.
    pub open spec fn is_complete(self) -> bool {
        forall|k: int| 0 <= k < self.blocks.len() ==> (#[trigger] self.blocks[k]).status
            == Status::Retrieved
    }

    /// The data of all blocks, one after the other; nothing when a block
    /// holds no data.
    pub open spec fn payload(self) -> Option<Seq<u8>> {
        payload_upto(self.blocks, self.blocks.len() as int)
    }

    /// Whether every block holds data and the SHA-1 digest of all of it,
    /// spelled in hexadecimal, is the hash that the piece expects.
    pub open spec fn hash_matches(self) -> bool {
        self.payload() matches Some(bytes) && hex_text(sha1_digest(bytes)) == self.hash_value
    }
}

impl PieceView {
    /// A position that holds a missing block and before which no block is
    /// missing is `first_missing`.
    pub proof fn lemma_first_missing_is(self, r: int)
        requires
            0 <= r <= self.blocks.len(),
            forall|j: int| 0 <= j < r ==> (#[trigger] self.blocks[j]).status != Status::Missing,
            r < self.blocks.len() ==> self.blocks[r].status == Status::Missing,
        ensures
            self.first_missing() == r,
    {
        lemma_first_where_is(
            self.blocks.len() as int,
            |k: int| self.blocks[k].status == Status::Missing,
            r,
        );
    }

    /// A position that holds a block at `offset` and before which no block
    /// stands at `offset` is `find_offset`.
    pub proof fn lemma_find_offset_is(self, offset: u64, r: int)
        requires
            0 <= r <= self.blocks.len(),
            forall|j: int| 0 <= j < r ==> (#[trigger] self.blocks[j]).offset != offset,
            r < self.blocks.len() ==> self.blocks[r].offset == offset,
        ensures
            self.find_offset(offset) == r,
    {
        lemma_first_where_is(
            self.blocks.len() as int,
            |k: int| self.blocks[k].offset == offset,
            r,
        );
    }
}

/// The data of `blocks`, one after the other; nothing when one of them holds
/// no data.
pub fn concat_data(blocks: &[Block]) -> (bytes: Option<Vec<u8>>)
    ensures
        match bytes {
            Some(b) => payload_upto(blocks@.map_values(|b: Block| b@), blocks@.len() as int)
                == Some(b@),
            None => payload_upto(blocks@.map_values(|b: Block| b@), blocks@.len() as int)
                is None,
        },
{
    let mut buffer: Vec<u8> = Vec::new();
    let mut k: usize = 0;
    let ghost views = blocks@.map_values(|b: Block| b@);
    while k < blocks.len()
        invariant
            k <= blocks.len(),
            views == blocks@.map_values(|b: Block| b@),
            payload_upto(views, k as int) == Some(buffer@),
        decreases blocks.len() - k,
    {
        match &blocks[k].data {
            Some(data) => {
                let ghost before = buffer@;
                buffer.extend_from_slice(data.as_slice());
                assert(buffer@ =~= before + data@);
                assert(views[k as int].data == Some(data@));
            },
            None => {
                proof {
                    assert(views[k as int].data is None);
                    lemma_payload_none(views, k + 1, blocks@.len() as int);
                }
                return None;
            },
        }
        k += 1;
    }
    Some(buffer)
}

/// Once the data of the first blocks is wanting, so is that of more blocks.
pub proof fn lemma_payload_none(blocks: Seq<BlockView>, n: int, m: int)
    requires
        0 <= n <= m,
        payload_upto(blocks, n) is None,
    ensures
        payload_upto(blocks, m) is None,
    decreases m - n,
{
    if n < m {
        lemma_payload_none(blocks, n, m - 1);
    }
}

impl Piece {
    /// A piece with the given blocks, which expects the hash `hash_value`,
    /// spelled in lower-case hexadecimal.
    pub fn new(index: u32, blocks: Vec<Block>, hash_value: String) -> (piece: Piece)
        ensures
            piece.index == index,
            piece.blocks == blocks,
            piece.hash_value == hash_value,
    {
        Piece { index, blocks, hash_value }
    }

    /// Marks every block as missing and drops its data.
    pub fn reset(&mut self)
        ensures
            final(self)@ == old(self)@.cleared(),
    {
        let mut k: usize = 0;
        while k < self.blocks.len()
            invariant
                k <= self.blocks.len(),
                self.index == old(self).index,
                self.hash_value == old(self).hash_value,
                self.blocks@.len() == old(self).blocks@.len(),
                forall|j: int|
                    0 <= j < k ==> (#[trigger] self.blocks@[j])@ == old(self).blocks@[j]@.with(
                        Status::Missing,
                        None,
                    ),
                forall|j: int|
                    k <= j < self.blocks@.len() ==> (#[trigger] self.blocks@[j]) == old(
                        self,
                    ).blocks@[j],
            decreases self.blocks.len() - k,
        {
            self.blocks[k].status = Status::Missing;
            self.blocks[k].data = None;
            k += 1;
        }
        assert(self@.blocks =~= old(self)@.cleared().blocks);
    }

    /// Picks the first missing block, marks it as pending and returns a copy
    /// of it; returns nothing when no block is missing.
    pub fn next_request(&mut self) -> (block: Option<Block>)
        ensures
            final(self)@ == old(self)@.requested(),
            match block {
                Some(b) => old(self)@.next_block() == Some(b@),
                None => old(self)@.next_block() is None,
            },
    {
        let mut k: usize = 0;
        while k < self.blocks.len()
            invariant
                k <= self.blocks.len(),
                *self == *old(self),
                forall|j: int| 0 <= j < k ==> (#[trigger] self@.blocks[j]).status != Status::Missing,
            decreases self.blocks.len() - k,
        {
            if self.blocks[k].status == Status::Missing {
                proof {
                    self@.lemma_first_missing_is(k as int);
                }
                self.blocks[k].status = Status::Pending;
                let copy = copy_block(&self.blocks[k]);
                assert(self@.blocks =~= old(self)@.requested().blocks);
                return Some(copy);
            }
            k += 1;
        }
        proof {
            self@.lemma_first_missing_is(k as int);
        }
        None
    }

    /// Stores `data` in the first block at `offset` and marks it as
    /// retrieved; does nothing when no block stands at `offset`.
    pub fn block_received(&mut self, offset: u32, data: Vec<u8>)
        ensures
            final(self)@ == old(self)@.received(offset as u64, data@),
    {
        let mut k: usize = 0;
        while k < self.blocks.len()
            invariant
                k <= self.blocks.len(),
                *self == *old(self),
                forall|j: int| 0 <= j < k ==> (#[trigger] self@.blocks[j]).offset != offset as u64,
            decreases self.blocks.len() - k,
        {
            if self.blocks[k].offset == offset as u64 {
                proof {
                    self@.lemma_find_offset_is(offset as u64, k as int);
                }
                self.blocks[k].status = Status::Retrieved;
                self.blocks[k].data = Some(data);
                assert(self@.blocks =~= old(self)@.received(offset as u64, data@).blocks);
                return ;
            }
            k += 1;
        }
        proof {
            self@.lemma_find_offset_is(offset as u64, k as int);
        }
    }

    /// Whether every block has been retrieved.
    pub fn is_complete(&self) -> (complete: bool)
        ensures
            complete == self@.is_complete(),
    {
        let mut k: usize = 0;
        while k < self.blocks.len()
            invariant
                k <= self.blocks.len(),
                forall|j: int| 0 <= j < k ==> (#[trigger] self@.blocks[j]).status
                    == Status::Retrieved,
            decreases self.blocks.len() - k,
        {
            if self.blocks[k].status != Status::Retrieved {
                assert(self@.blocks[k as int].status != Status::Retrieved);
                return false;
            }
            k += 1;
        }
        true
    }

    /// The data of all blocks, one after the other, when every block holds
    /// data and the SHA-1 digest of all of it, spelled in hexadecimal, is
    /// the hash that the piece expects; nothing otherwise.
    pub fn verified_payload(&self) -> (payload: Option<Vec<u8>>)
        ensures
            match payload {
                Some(bytes) => self@.hash_matches() && self@.payload() == Some(bytes@),
                None => !self@.hash_matches(),
            },
    {
        match concat_data(self.blocks.as_slice()) {
            None => None,
            Some(bytes) => {
                let digest = sha1(bytes.as_slice());
                let text = hex_encode(digest.as_slice());
                if text == self.hash_value {
                    Some(bytes)
                } else {
                    None
                }
            },
        }
    }

    /// Whether every block holds data and the SHA-1 digest of all of it,
    /// spelled in hexadecimal, is the hash that the piece expects.
    pub fn is_hash_matching(&self) -> (matching: bool)
        ensures
            matching == self@.hash_matches(),
    {
        self.verified_payload().is_some()
    }

    /// The position of the first block at `offset`; the number of blocks
    /// when there is none.
    pub fn position_of(&self, offset: u64) -> (k: usize)
        ensures
            k == self@.find_offset(offset),
            k <= self.blocks@.len(),
    {
        let mut k: usize = 0;
        while k < self.blocks.len()
            invariant
                k <= self.blocks.len(),
                forall|j: int| 0 <= j < k ==> (#[trigger] self@.blocks[j]).offset != offset,
            decreases self.blocks.len() - k,
        {
            if self.blocks[k].offset == offset {
                proof {
                    self@.lemma_find_offset_is(offset, k as int);
                }
                return k;
            }
            k += 1;
        }
        proof {
            self@.lemma_find_offset_is(offset, k as int);
        }
        k
    }

    /// Marks every block as retrieved and drops its data.
    pub fn seal(&mut self)
        ensures
            final(self)@ == old(self)@.sealed(),
    {
        let mut k: usize = 0;
        while k < self.blocks.len()
            invariant
                k <= self.blocks.len(),
                self.index == old(self).index,
                self.hash_value == old(self).hash_value,
                self.blocks@.len() == old(self).blocks@.len(),
                forall|j: int|
                    0 <= j < k ==> (#[trigger] self.blocks@[j])@ == old(self).blocks@[j]@.with(
                        Status::Retrieved,
                        None,
                    ),
                forall|j: int|
                    k <= j < self.blocks@.len() ==> (#[trigger] self.blocks@[j]) == old(
                        self,
                    ).blocks@[j],
            decreases self.blocks.len() - k,
        {
            self.blocks[k].status = Status::Retrieved;
            self.blocks[k].data = None;
            k += 1;
        }
        assert(self@.blocks =~= old(self)@.sealed().blocks);
    }
}

} // verus!
