//! How the content is cut into pieces and the pieces into blocks.

use super::{Block, BlockView, Piece, PieceView, Status, REQUEST_SIZE};
use crate::torrent::Torrent;
use crate::trusted::{hex_encode, hex_text};
use vstd::arithmetic::div_mod::lemma_fundamental_div_mod_converse;
use vstd::prelude::*;

verus! {

/// The numbers that fix the layout of a torrent's content.
pub struct Geometry {
    pub piece_length: u32,
    pub total_size: u64,
    pub hashes: Seq<u8>,
}

impl Torrent {
    /// The numbers that fix the layout of the content.
    pub open spec fn geometry(&self) -> Geometry {
        Geometry {
            piece_length: self.piece_length,
            total_size: self.total_size,
            hashes: self.pieces@,
        }
    }
}

/// The number of blocks in a piece of `size` bytes.
pub open spec fn block_count(size: int) -> int {
    (size + 16383) / 16384
}

/// The length of block `k` in a piece of `size` bytes: 2^14, or what is
/// left of the piece when that is less.
pub open spec fn block_length(size: int, k: int) -> int {
    if size - k * 16384 < 16384 {
        size - k * 16384
    } else {
        16384
    }
}

/// Block `k` of piece `piece`, which has `size` bytes, before anything has
/// been asked for.
pub open spec fn block_layout(piece: int, size: int, k: int) -> BlockView {
    BlockView {
        piece: piece as u64,
        offset: (k * 16384) as u64,
        length: block_length(size, k) as u64,
        status: Status::Missing,
        data: None,
    }
}

impl Geometry {
    /// Whether the piece length is positive, every piece has 20 bytes of
    /// hash, and the number of pieces fits 32 bits.
    pub open spec fn wf(self) -> bool {
        &&& self.piece_length > 0
        &&& self.hashes.len() % 20 == 0
        &&& self.hashes.len() / 20 <= u32::MAX
    }

    /// The number of pieces.
    pub open spec fn piece_count(self) -> int {
        self.hashes.len() as int / 20
    }

    /// Whether there are as many pieces as the total size asks for.
    pub open spec fn consistent(self) -> bool {
        &&& self.total_size <= self.piece_count() * self.piece_length
        &&& self.piece_count() > 0 ==> (self.piece_count() - 1) * self.piece_length
            < self.total_size
    }

    /// The length of the last piece: what is left of the total size behind
    /// the full pieces, or a full piece when nothing is left.
    pub open spec fn last_size(self) -> int {
        if self.total_size as int % self.piece_length as int == 0 {
            self.piece_length as int
        } else {
            self.total_size as int % self.piece_length as int
        }
    }

    /// The length of piece `i`.
    pub open spec fn piece_size(self, i: int) -> int {
        if i < self.piece_count() - 1 {
            self.piece_length as int
        } else {
            self.last_size()
        }
    }

    /// The hash that piece `i` must have, in hexadecimal.
    pub open spec fn piece_hash(self, i: int) -> Seq<char> {
        hex_text(self.hashes.subrange(20 * i, 20 * i + 20))
    }

    /// Piece `i` before anything has been asked for.
    pub open spec fn piece_layout(self, i: int) -> PieceView {
        PieceView {
            index: i as u32,
            blocks: Seq::new(
                block_count(self.piece_size(i)) as nat,
                |k: int| block_layout(i, self.piece_size(i), k),
            ),
            hash_value: self.piece_hash(i),
        }
    }

    /// The lengths of the first `n` pieces, added up.
    pub open spec fn sizes_total(self, n: int) -> int
        decreases n,
    {
        if n <= 0 {
            0
        } else {
            self.sizes_total(n - 1) + self.piece_size(n - 1)
        }
    }
}

/// The lengths of the first `n` blocks, added up.
pub open spec fn blocks_total(blocks: Seq<BlockView>, n: int) -> int
    decreases n,
{
    if n <= 0 {
        0
    } else {
        blocks_total(blocks, n - 1) + blocks[n - 1].length
    }
}

/// Every piece has between one byte and a full piece length.
pub proof fn lemma_piece_size(g: Geometry, i: int)
    requires
        g.wf(),
    ensures
        0 < g.piece_size(i) <= g.piece_length,
{
    let pl = g.piece_length as int;
    assert(0 <= g.total_size as int % pl < pl);
}

/// The first `n` blocks of a piece of `size` bytes cover its first bytes
/// without a gap.
proof fn lemma_blocks_total(blocks: Seq<BlockView>, piece: int, size: int, n: int)
    requires
        0 < size <= u32::MAX,
        0 <= n <= block_count(size) == blocks.len(),
        forall|k: int| 0 <= k < blocks.len() ==> #[trigger] blocks[k] == block_layout(piece, size, k),
    ensures
        n < block_count(size) ==> blocks_total(blocks, n) == n * 16384,
        n == block_count(size) ==> blocks_total(blocks, n) == size,
    decreases n,
{
    if n > 0 {
        lemma_blocks_total(blocks, piece, size, n - 1);
        assert(blocks[n - 1] == block_layout(piece, size, n - 1));
    }
}

/// The blocks of a piece cut it into ranges that follow one another without
/// a gap, each of 2^14 bytes but for the last, which may be shorter and is
/// never empty; together they cover the piece.
pub proof fn lemma_block_partition(g: Geometry, i: int)
    requires
        g.wf(),
        0 <= i < g.piece_count(),
    ensures
        ({
            let blocks = g.piece_layout(i).blocks;
            &&& blocks.len() >= 1
            &&& forall|k: int|
                0 <= k < blocks.len() ==> (#[trigger] blocks[k]).offset == blocks_total(blocks, k)
            &&& blocks_total(blocks, blocks.len() as int) == g.piece_size(i)
            &&& forall|k: int| 0 <= k < blocks.len() - 1 ==> (#[trigger] blocks[k]).length == 16384
            &&& 0 < blocks[blocks.len() - 1].length <= 16384
        }),
{
    let blocks = g.piece_layout(i).blocks;
    let size = g.piece_size(i);
    lemma_piece_size(g, i);
    assert forall|k: int| 0 <= k < blocks.len() implies (#[trigger] blocks[k]).offset
        == blocks_total(blocks, k) by {
        lemma_blocks_total(blocks, i, size, k);
    }
    lemma_blocks_total(blocks, i, size, blocks.len() as int);
}

/// All pieces but the last have the full piece length.
proof fn lemma_sizes_total(g: Geometry, n: int)
    requires
        g.wf(),
        0 <= n < g.piece_count(),
    ensures
        g.sizes_total(n) == n * g.piece_length,
    decreases n,
{
    let pl = g.piece_length as int;
    if n > 0 {
        lemma_sizes_total(g, n - 1);
        assert(g.piece_size(n - 1) == pl);
        assert(g.sizes_total(n) == (n - 1) * pl + pl);
        assert((n - 1) * pl + pl == n * pl) by (nonlinear_arith);
    } else {
        assert(g.sizes_total(n) == 0);
        assert(n * pl == 0) by (nonlinear_arith)
            requires
                n == 0,
        ;
    }
}

/// Where there are as many pieces as the total size asks for, every piece
/// but the last has the full piece length, and the lengths of all pieces
/// add up to the total size.
pub proof fn lemma_piece_partition(g: Geometry)
    requires
        g.wf(),
        g.consistent(),
    ensures
        forall|i: int| 0 <= i < g.piece_count() - 1 ==> g.piece_size(i) == g.piece_length,
        g.sizes_total(g.piece_count()) == g.total_size,
{
    let count = g.piece_count();
    let pl = g.piece_length as int;
    let total = g.total_size as int;
    if count > 0 {
        lemma_sizes_total(g, count - 1);
        let left = total - (count - 1) * pl;
        assert(0 < left <= pl) by (nonlinear_arith)
            requires
                left == total - (count - 1) * pl,
                (count - 1) * pl < total,
                total <= count * pl,
        ;
        if left == pl {
            assert(total == count * pl + 0) by (nonlinear_arith)
                requires
                    total - (count - 1) * pl == pl,
            ;
            lemma_fundamental_div_mod_converse(total, pl, count, 0);
        } else {
            lemma_fundamental_div_mod_converse(total, pl, count - 1, left);
        }
        assert(g.last_size() == left);
        assert(g.sizes_total(count) == g.sizes_total(count - 1) + g.piece_size(count - 1));
    } else {
        assert(g.sizes_total(count) == 0);
        assert(count * pl == 0) by (nonlinear_arith)
            requires
                count == 0,
        ;
    }
}

/// The blocks of piece `piece`, which has `size` bytes.
fn layout_blocks(piece: u32, size: u64) -> (blocks: Vec<Block>)
    requires
        0 < size <= u32::MAX,
    ensures
        blocks@.len() == block_count(size as int),
        forall|k: int|
            0 <= k < blocks@.len() ==> (#[trigger] blocks@[k])@ == block_layout(
                piece as int,
                size as int,
                k,
            ),
{
    let mut blocks: Vec<Block> = Vec::new();
    let mut offset: u64 = 0;
    while offset < size
        invariant
            0 < size <= u32::MAX,
            offset == blocks@.len() * 16384,
            blocks@.len() <= block_count(size as int),
            offset >= size ==> blocks@.len() == block_count(size as int),
            forall|k: int|
                0 <= k < blocks@.len() ==> (#[trigger] blocks@[k])@ == block_layout(
                    piece as int,
                    size as int,
                    k,
                ),
        decreases size + 16384 - offset,
    {
        let left = size - offset;
        let length: u64 = if left < REQUEST_SIZE as u64 {
            left
        } else {
            REQUEST_SIZE as u64
        };
        blocks.push(Block::new(piece as u64, offset, length));
        offset = offset + REQUEST_SIZE as u64;
    }
    blocks
}

/// The pieces of `torrent`, each cut into blocks, none asked for yet.
pub fn layout_pieces(torrent: &Torrent) -> (pieces: Vec<Piece>)
    requires
        torrent.geometry().wf(),
    ensures
        pieces@.len() == torrent.geometry().piece_count(),
        forall|i: int|
            0 <= i < pieces@.len() ==> (#[trigger] pieces@[i])@ == torrent.geometry().piece_layout(
                i,
            ),
{
    let ghost g = torrent.geometry();
    let count: usize = torrent.pieces.len() / 20;
    let left: u64 = torrent.total_size % (torrent.piece_length as u64);
    let mut pieces: Vec<Piece> = Vec::new();
    let mut i: usize = 0;
    while i < count
        invariant
            i <= count,
            g == torrent.geometry(),
            g.wf(),
            count == g.piece_count(),
            left == g.total_size as int % g.piece_length as int,
            pieces@.len() == i,
            forall|j: int| 0 <= j < i ==> (#[trigger] pieces@[j])@ == g.piece_layout(j),
        decreases count - i,
    {
        let size: u64 = if i < count - 1 || left == 0 {
            torrent.piece_length as u64
        } else {
            left
        };
        proof {
            lemma_piece_size(g, i as int);
        }
        let blocks = layout_blocks(i as u32, size);
        let len: usize = torrent.pieces.len();
        assert(20 * i + 20 <= len);
        let hash = hex_encode(
            vstd::slice::slice_subrange(torrent.pieces.as_slice(), 20 * i, 20 * i + 20),
        );
        let piece = Piece::new(i as u32, blocks, hash);
        assert(piece@.blocks =~= g.piece_layout(i as int).blocks);
        pieces.push(piece);
        i += 1;
    }
    pieces
}

} // verus!
