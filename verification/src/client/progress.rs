//! Progress of the scheduler: with one peer that holds every piece and
//! delivers genuine data, every pair of a request and an arrival brings the
//! download one block nearer to its end.

use super::laws::{lemma_all_pieces, lemma_laid_out_block, lemma_laid_out_nonempty,
    lemma_ongoing_pieces, lemma_place_of, lemma_rarest_upto, lemma_received_step_wf,
    lemma_request_for, lemma_request_step_wf, lemma_requested_is_taken, lemma_started_wf,
    lemma_taken_place, place_of};
use super::layout::{block_count, block_layout, block_length, lemma_piece_size, Geometry};
use super::model::{holds, ManagerView, PendingView};
use super::{payload_upto, BlockView, PieceView, Status};
use crate::trusted::{hex_text, sha1_digest};
use vstd::prelude::*;

verus! {

/// The number of the first `n` blocks that have not been retrieved.
pub open spec fn open_upto(blocks: Seq<BlockView>, n: int) -> nat
    decreases n,
{
    if n <= 0 {
        0
    } else if blocks[n - 1].status == Status::Retrieved {
        open_upto(blocks, n - 1)
    } else {
        open_upto(blocks, n - 1) + 1
    }
}

impl PieceView {
    /// The number of blocks of the piece that have not been retrieved.
    pub open spec fn open_blocks(self) -> nat {
        open_upto(self.blocks, self.blocks.len() as int)
    }
}

/// The number of blocks of the first `n` pieces that have not been
/// retrieved.
pub open spec fn open_in(pieces: Seq<PieceView>, n: int) -> nat
    decreases n,
{
    if n <= 0 {
        0
    } else {
        open_in(pieces, n - 1) + pieces[n - 1].open_blocks()
    }
}

impl ManagerView {
    /// The number of blocks that are still to be retrieved.
    pub open spec fn remaining(self) -> nat {
        open_in(self.missing, self.missing.len() as int) + open_in(
            self.ongoing,
            self.ongoing.len() as int,
        )
    }

    /// Whether the peer `id` is known and holds every piece.
    pub open spec fn served_by(self, id: Seq<char>) -> bool {
        self.bitfield_of(id) matches Some(bitfield) && forall|i: int|
            0 <= i < self.geometry.piece_count() ==> holds(bitfield, i)
    }

    /// Whether every retrieved block of an ongoing piece holds the bytes
    /// that `data` gives for its piece and offset.
    pub open spec fn stores(self, data: spec_fn(u64, u64) -> Seq<u8>) -> bool {
        forall|k: int, b: int|
            0 <= k < self.ongoing.len() && 0 <= b < self.ongoing[k].blocks.len() && (
            #[trigger] self.ongoing[k].blocks[b]).status == Status::Retrieved
                ==> self.ongoing[k].blocks[b].data == Some(
                data(self.ongoing[k].blocks[b].piece, self.ongoing[k].blocks[b].offset),
            )
    }

    /// Whether the state is valid, no request is under way, the peer `id`
    /// holds every piece, and what has been retrieved is what `data` gives.
    pub open spec fn steady(self, id: Seq<char>, data: spec_fn(u64, u64) -> Seq<u8>) -> bool {
        &&& self.wf()
        &&& self.pending.len() == 0
        &&& self.served_by(id)
        &&& self.stores(data)
    }

    /// The state after one request of the peer `id` at the time `now` and
    /// the arrival of the bytes that `data` gives for the block asked for.
    pub open spec fn round(
        self,
        id: Seq<char>,
        now: u128,
        data: spec_fn(u64, u64) -> Seq<u8>,
    ) -> ManagerView {
        let (asked, block) = self.request_step(id, now);
        match block {
            Some(b) => asked.received_step(b.piece, b.offset, data(b.piece, b.offset)).0,
            None => asked,
        }
    }

    /// The state after `n` rounds, the round `k` at the time `clock(k)`.
    pub open spec fn rounds(
        self,
        id: Seq<char>,
        clock: spec_fn(nat) -> u128,
        data: spec_fn(u64, u64) -> Seq<u8>,
        n: nat,
    ) -> ManagerView
        decreases n,
    {
        if n == 0 {
            self
        } else {
            self.rounds(id, clock, data, (n - 1) as nat).round(id, clock((n - 1) as nat), data)
        }
    }
}

/// The bytes that `data` gives for the first `n` blocks of piece `i`, one
/// after the other.
pub open spec fn expected(data: spec_fn(u64, u64) -> Seq<u8>, i: int, n: int) -> Seq<u8>
    decreases n,
{
    if n <= 0 {
        Seq::empty()
    } else {
        expected(data, i, n - 1) + data(i as u64, ((n - 1) * 16384) as u64)
    }
}

/// The bytes that `data` gives for block `k` of piece `i`.
pub open spec fn block_data(data: spec_fn(u64, u64) -> Seq<u8>, i: int, k: int) -> Seq<u8> {
    data(i as u64, (k * 16384) as u64)
}

/// Whether `data` gives, for every block, as many bytes as the block has,
/// and for every piece, bytes with the hash that the metainfo lists for it.
pub open spec fn genuine(g: Geometry, data: spec_fn(u64, u64) -> Seq<u8>) -> bool {
    &&& forall|i: int, k: int|
        0 <= i < g.piece_count() && 0 <= k < block_count(g.piece_size(i)) ==> (
        #[trigger] block_data(data, i, k)).len() == block_length(g.piece_size(i), k)
    &&& forall|i: int|
        0 <= i < g.piece_count() ==> hex_text(
            sha1_digest(expected(data, i, block_count(g.piece_size(i)))),
        ) == #[trigger] g.piece_hash(i)
}

/// The open blocks of a list of blocks after one block has changed.
pub proof fn lemma_open_update(blocks: Seq<BlockView>, b: int, block: BlockView, n: int)
    requires
        0 <= b < blocks.len(),
        0 <= n <= blocks.len(),
    ensures
        open_upto(blocks.update(b, block), n) == open_upto(blocks, n) - (if b < n && blocks[b].status
            != Status::Retrieved {
            1int
        } else {
            0int
        }) + (if b < n && block.status != Status::Retrieved {
            1int
        } else {
            0int
        }),
    decreases n,
{
    if n > 0 {
        lemma_open_update(blocks, b, block, n - 1);
    }
}

/// No block is open exactly when all are retrieved; and where no block is
/// retrieved all are open.
pub proof fn lemma_open_bounds(blocks: Seq<BlockView>, n: int)
    requires
        0 <= n <= blocks.len(),
    ensures
        open_upto(blocks, n) <= n,
        open_upto(blocks, n) == 0 <==> forall|k: int|
            0 <= k < n ==> (#[trigger] blocks[k]).status == Status::Retrieved,
        (forall|k: int| 0 <= k < n ==> (#[trigger] blocks[k]).status != Status::Retrieved)
            ==> open_upto(blocks, n) == n,
    decreases n,
{
    if n > 0 {
        lemma_open_bounds(blocks, n - 1);
        if open_upto(blocks, n) == 0 {
            assert forall|k: int| 0 <= k < n implies (#[trigger] blocks[k]).status
                == Status::Retrieved by {
                if k < n - 1 {
                }
            }
        }
        if forall|k: int| 0 <= k < n ==> (#[trigger] blocks[k]).status == Status::Retrieved {
            assert(blocks[n - 1].status == Status::Retrieved);
        }
    }
}

/// The open blocks of lists of pieces that agree on their first `n`
/// pieces.
pub proof fn lemma_open_in_same(a: Seq<PieceView>, b: Seq<PieceView>, n: int)
    requires
        0 <= n <= a.len(),
        n <= b.len(),
        forall|k: int| 0 <= k < n ==> a[k] == b[k],
    ensures
        open_in(a, n) == open_in(b, n),
    decreases n,
{
    if n > 0 {
        lemma_open_in_same(a, b, n - 1);
    }
}

/// The open blocks of a list of pieces after one piece has changed.
pub proof fn lemma_open_in_update(pieces: Seq<PieceView>, k: int, piece: PieceView, n: int)
    requires
        0 <= k < pieces.len(),
        0 <= n <= pieces.len(),
    ensures
        open_in(pieces.update(k, piece), n) == open_in(pieces, n) - (if k < n {
            pieces[k].open_blocks() as int
        } else {
            0int
        }) + (if k < n {
            piece.open_blocks() as int
        } else {
            0int
        }),
    decreases n,
{
    if n > 0 {
        lemma_open_in_update(pieces, k, piece, n - 1);
    }
}

/// The open blocks of a list of pieces after one piece has left.
pub proof fn lemma_open_in_remove(pieces: Seq<PieceView>, k: int, n: int)
    requires
        0 <= k < pieces.len(),
        0 <= n <= pieces.len() - 1,
    ensures
        open_in(pieces.remove(k), n) == if n <= k {
            open_in(pieces, n) as int
        } else {
            open_in(pieces, n + 1) - pieces[k].open_blocks()
        },
    decreases n,
{
    if n > 0 {
        lemma_open_in_remove(pieces, k, n - 1);
        if n - 1 < k {
            assert(pieces.remove(k)[n - 1] == pieces[n - 1]);
        } else {
            assert(pieces.remove(k)[n - 1] == pieces[n]);
        }
    }
}

/// The open blocks of a list of pieces after one piece has joined.
pub proof fn lemma_open_in_push(pieces: Seq<PieceView>, piece: PieceView)
    ensures
        open_in(pieces.push(piece), pieces.len() as int + 1) == open_in(pieces, pieces.len() as int)
            + piece.open_blocks(),
{
    lemma_open_in_same(pieces.push(piece), pieces, pieces.len() as int);
}

/// Asking for a block leaves as many blocks to be retrieved.
pub proof fn lemma_asked_remaining(m: ManagerView, k: int, now: u128)
    requires
        0 <= k < m.ongoing.len(),
        m.ongoing[k].has_missing(),
    ensures
        m.asked(k, now).remaining() == m.remaining(),
{
    let piece = m.ongoing[k];
    piece.lemma_first_missing();
    let b = piece.first_missing();
    let block = piece.next_block()->0;
    assert(piece.requested().blocks == piece.blocks.update(b, block));
    lemma_open_update(piece.blocks, b, block, piece.blocks.len() as int);
    lemma_open_in_update(m.ongoing, k, piece.requested(), m.ongoing.len() as int);
}

/// Starting a piece leaves as many blocks to be retrieved.
pub proof fn lemma_started_remaining(m: ManagerView, k: int)
    requires
        0 <= k < m.missing.len(),
    ensures
        m.started(k).remaining() == m.remaining(),
{
    lemma_open_in_remove(m.missing, k, m.missing.len() - 1);
    lemma_open_in_push(m.ongoing, m.missing[k]);
}

/// In a valid state, nothing is left to be retrieved exactly when every
/// piece has been verified.
pub proof fn lemma_remaining_zero(m: ManagerView)
    requires
        m.wf(),
    ensures
        m.remaining() == 0 <==> m.complete(),
{
    lemma_all_pieces(m);
    lemma_ongoing_pieces(m);
    assert(m.all_pieces().len() == m.geometry.piece_count()) by {
        reveal(ManagerView::pieces_wf);
    }
    if m.missing.len() > 0 {
        let last = m.missing.len() - 1;
        let piece = m.missing[last];
        lemma_laid_out_nonempty(piece, m.geometry);
        assert(piece.untouched()) by {
            reveal(ManagerView::states_wf);
        }
        lemma_open_bounds(piece.blocks, piece.blocks.len() as int);
        assert(piece.open_blocks() == piece.blocks.len());
        assert(open_in(m.missing, m.missing.len() as int) == open_in(m.missing, last)
            + piece.open_blocks());
    }
    if m.ongoing.len() > 0 {
        let last = m.ongoing.len() - 1;
        let piece = m.ongoing[last];
        assert(piece.in_progress()) by {
            reveal(ManagerView::states_wf);
        }
        lemma_open_bounds(piece.blocks, piece.blocks.len() as int);
        assert(piece.open_blocks() > 0);
        assert(open_in(m.ongoing, m.ongoing.len() as int) == open_in(m.ongoing, last)
            + piece.open_blocks());
    }
}

/// The data of the first `n` blocks of a piece whose retrieved blocks hold
/// what `data` gives, when all of them are retrieved.
pub proof fn lemma_payload_expected(
    piece: PieceView,
    g: Geometry,
    data: spec_fn(u64, u64) -> Seq<u8>,
    n: int,
)
    requires
        g.wf(),
        piece.laid_out(g),
        0 <= n <= piece.blocks.len(),
        forall|b: int|
            0 <= b < n ==> (#[trigger] piece.blocks[b]).data == Some(
                data(piece.blocks[b].piece, piece.blocks[b].offset),
            ),
    ensures
        payload_upto(piece.blocks, n) == Some(expected(data, piece.index as int, n)),
    decreases n,
{
    if n > 0 {
        lemma_payload_expected(piece, g, data, n - 1);
        lemma_laid_out_block(piece, g, n - 1);
        assert(piece.blocks[n - 1].data == Some(
            data(piece.blocks[n - 1].piece, piece.blocks[n - 1].offset),
        ));
    }
}

/// In a state where no request is under way, the first ongoing piece has a
/// missing block.
proof fn lemma_quiet_ongoing(m: ManagerView, k: int)
    requires
        m.wf(),
        m.pending.len() == 0,
        0 <= k < m.ongoing.len(),
    ensures
        m.ongoing[k].has_missing(),
{
    let piece = m.ongoing[k];
    assert(piece.in_progress()) by {
        reveal(ManagerView::states_wf);
    }
    let b = choose|b: int|
        0 <= b < piece.blocks.len() && (#[trigger] piece.blocks[b]).status != Status::Retrieved;
    if piece.blocks[b].status == Status::Pending {
        lemma_request_for(m, k, b);
    }
    piece.lemma_first_missing();
    if piece.first_missing() >= piece.blocks.len() {
        assert(piece.blocks[b].status != Status::Missing);
    }
}

/// What a request gives in a steady state in which pieces are left: a
/// block of an ongoing piece, which becomes pending, with the one request
/// under way; as many blocks are left to be retrieved.
proof fn lemma_steady_request(
    m: ManagerView,
    id: Seq<char>,
    now: u128,
    data: spec_fn(u64, u64) -> Seq<u8>,
)
    requires
        m.steady(id, data),
        !m.complete(),
    ensures
        ({
            let (asked, block) = m.request_step(id, now);
            &&& block is Some
            &&& asked.wf()
            &&& asked.remaining() == m.remaining()
            &&& asked.pending == seq![PendingView { block: block->0, added: now }]
            &&& asked.served_by(id)
            &&& asked.stores(data)
            &&& asked.geometry == m.geometry
        }),
{
    let bitfield = m.bitfield_of(id)->0;
    lemma_request_step_wf(m, id, now);
    m.lemma_first_expired(bitfield, now);
    lemma_all_pieces(m);
    lemma_ongoing_pieces(m);
    assert(m.all_pieces().len() == m.geometry.piece_count()) by {
        reveal(ManagerView::pieces_wf);
    }
    if m.ongoing.len() > 0 {
        lemma_quiet_ongoing(m, 0);
        assert(m.ongoing[0].laid_out(m.geometry));
        assert(m.is_workable(bitfield, 0));
        m.lemma_first_workable_is(bitfield, 0);
        lemma_asked_remaining(m, 0, now);
        let asked = m.asked(0, now);
        assert(asked.pending =~= seq![
            PendingView { block: m.ongoing[0].next_block()->0, added: now },
        ]);
        lemma_asked_stores(m, 0, now, data);
    } else {
        m.lemma_first_workable(bitfield);
        lemma_rarest_upto(m, bitfield, m.missing.len() as int);
        let last = m.missing.len() - 1;
        assert(m.missing[last].laid_out(m.geometry));
        assert(holds(bitfield, m.missing[last].index as int));
        let k = m.rarest(bitfield);
        assert(k >= 0);
        lemma_started_wf(m, k);
        lemma_started_remaining(m, k);
        let started = m.started(k);
        assert(started.ongoing =~= seq![m.missing[k]]);
        assert(started.bitfield_of(id) == m.bitfield_of(id));
        lemma_quiet_ongoing(started, 0);
        assert(m.missing[k].laid_out(m.geometry));
        assert(started.is_workable(bitfield, 0));
        started.lemma_first_workable_is(bitfield, 0);
        lemma_asked_remaining(started, 0, now);
        let asked = started.asked(0, now);
        assert(asked.pending =~= seq![
            PendingView { block: started.ongoing[0].next_block()->0, added: now },
        ]);
        assert(started.stores(data)) by {
            assert(m.missing[k].untouched()) by {
                reveal(ManagerView::states_wf);
            }
        }
        lemma_asked_stores(started, 0, now, data);
    }
}

/// Asking for a block leaves what has been retrieved as it is.
proof fn lemma_asked_stores(
    m: ManagerView,
    k: int,
    now: u128,
    data: spec_fn(u64, u64) -> Seq<u8>,
)
    requires
        0 <= k < m.ongoing.len(),
        m.ongoing[k].has_missing(),
        m.stores(data),
    ensures
        m.asked(k, now).stores(data),
        m.asked(k, now).peers == m.peers,
        m.asked(k, now).geometry == m.geometry,
{
    let after = m.asked(k, now);
    let piece = m.ongoing[k];
    piece.lemma_first_missing();
    let b = piece.first_missing();
    assert forall|j: int, n: int|
        0 <= j < after.ongoing.len() && 0 <= n < after.ongoing[j].blocks.len() && (
        #[trigger] after.ongoing[j].blocks[n]).status
            == Status::Retrieved implies after.ongoing[j].blocks[n].data == Some(
        data(after.ongoing[j].blocks[n].piece, after.ongoing[j].blocks[n].offset),
    ) by {
        if j == k {
            assert(n != b);
            assert(after.ongoing[j].blocks[n] == m.ongoing[j].blocks[n]);
        } else {
            assert(after.ongoing[j].blocks[n] == m.ongoing[j].blocks[n]);
        }
    }
}

/// One round in a steady state in which pieces are left, with genuine
/// data: the state is steady again, and one block less is left to be
/// retrieved.
pub proof fn lemma_round(
    m: ManagerView,
    id: Seq<char>,
    now: u128,
    data: spec_fn(u64, u64) -> Seq<u8>,
)
    requires
        m.steady(id, data),
        genuine(m.geometry, data),
        !m.complete(),
    ensures
        m.round(id, now, data).steady(id, data),
        m.round(id, now, data).geometry == m.geometry,
        m.round(id, now, data).remaining() == m.remaining() - 1,
{
    lemma_steady_request(m, id, now, data);
    let (asked, found) = m.request_step(id, now);
    let block = found->0;
    let bytes = data(block.piece, block.offset);
    let after = asked.received_step(block.piece, block.offset, bytes).0;
    lemma_received_step_wf(asked, block.piece, block.offset, bytes);
    assert(asked.pending[0].block == block);
    lemma_requested_is_taken(asked, 0);
    assert(bytes.len() == block.length) by {
        lemma_place_of(asked, 0);
        let (k0, b0) = place_of(asked, asked.pending[0]);
        lemma_ongoing_pieces(asked);
        let held = asked.ongoing[k0];
        lemma_piece_size(asked.geometry, held.index as int);
        lemma_laid_out_block(held, asked.geometry, b0);
        assert(held.blocks[b0].with(Status::Missing, None) == block_layout(
            held.index as int,
            asked.geometry.piece_size(held.index as int),
            b0,
        ));
        assert(bytes == block_data(data, held.index as int, b0));
    }
    lemma_taken_place(asked, block.piece, block.offset, bytes.len() as int);
    let k = asked.ongoing_pos(block.piece);
    let target = asked.ongoing[k];
    let b = target.find_offset(block.offset);
    let filled = target.received(block.offset, bytes);
    asked.lemma_pending_pos(block.piece, block.offset);
    asked.lemma_ongoing_pos(block.piece);
    target.lemma_find_offset(block.offset);
    assert(asked.pending_pos(block.piece, block.offset) == 0);
    assert(after.pending =~= Seq::<PendingView>::empty());
    lemma_ongoing_pieces(asked);
    lemma_laid_out_block(target, asked.geometry, b);
    let put = target.blocks[b].with(Status::Retrieved, Some(bytes));
    assert(filled.blocks == target.blocks.update(b, put));
    lemma_open_update(target.blocks, b, put, target.blocks.len() as int);
    assert(filled.open_blocks() == target.open_blocks() - 1);
    // what is stored in the filled piece is what `data` gives
    assert forall|n: int| 0 <= n < filled.blocks.len() && (#[trigger] filled.blocks[n]).status
        == Status::Retrieved implies filled.blocks[n].data == Some(
        data(filled.blocks[n].piece, filled.blocks[n].offset),
    ) by {
        if n != b {
            assert(filled.blocks[n] == asked.ongoing[k].blocks[n]);
        }
    }
    if filled.is_complete() {
        assert(filled.laid_out(asked.geometry)) by {
            assert forall|n: int| 0 <= n < filled.blocks.len() implies (
            #[trigger] filled.blocks[n]).with(Status::Missing, None) == target.blocks[n].with(
                Status::Missing,
                None,
            ) by {}
        }
        lemma_payload_expected(filled, asked.geometry, data, filled.blocks.len() as int);
        assert(filled.hash_matches()) by {
            assert(asked.geometry.piece_hash(filled.index as int) == filled.hash_value);
        }
        lemma_open_bounds(filled.blocks, filled.blocks.len() as int);
        lemma_open_in_remove(asked.ongoing, k, asked.ongoing.len() - 1);
        assert(after.ongoing == asked.ongoing.remove(k));
        assert(after.stores(data)) by {
            assert forall|j: int, n: int|
                0 <= j < after.ongoing.len() && 0 <= n < after.ongoing[j].blocks.len() && (
                #[trigger] after.ongoing[j].blocks[n]).status
                    == Status::Retrieved implies after.ongoing[j].blocks[n].data == Some(
                data(after.ongoing[j].blocks[n].piece, after.ongoing[j].blocks[n].offset),
            ) by {
                if j < k {
                    assert(after.ongoing[j].blocks[n] == asked.ongoing[j].blocks[n]);
                } else {
                    assert(after.ongoing[j].blocks[n] == asked.ongoing[j + 1].blocks[n]);
                }
            }
        }
    } else {
        lemma_open_in_update(asked.ongoing, k, filled, asked.ongoing.len() as int);
        assert(after.ongoing == asked.ongoing.update(k, filled));
        assert(after.stores(data)) by {
            assert forall|j: int, n: int|
                0 <= j < after.ongoing.len() && 0 <= n < after.ongoing[j].blocks.len() && (
                #[trigger] after.ongoing[j].blocks[n]).status
                    == Status::Retrieved implies after.ongoing[j].blocks[n].data == Some(
                data(after.ongoing[j].blocks[n].piece, after.ongoing[j].blocks[n].offset),
            ) by {
                if j != k {
                    assert(after.ongoing[j].blocks[n] == asked.ongoing[j].blocks[n]);
                }
            }
        }
    }
    assert(after.peers == asked.peers);
    assert(after.bitfield_of(id) == asked.bitfield_of(id));
}

/// From a steady state, with genuine data, every round
/// retrieves one block, so that the download is complete after exactly as
/// many rounds as there are blocks left, and not before.
pub proof fn lemma_download_completes(
    m: ManagerView,
    id: Seq<char>,
    clock: spec_fn(nat) -> u128,
    data: spec_fn(u64, u64) -> Seq<u8>,
    n: nat,
)
    requires
        m.steady(id, data),
        genuine(m.geometry, data),
        n <= m.remaining(),
    ensures
        m.rounds(id, clock, data, n).steady(id, data),
        m.rounds(id, clock, data, n).geometry == m.geometry,
        m.rounds(id, clock, data, n).remaining() == m.remaining() - n,
        m.rounds(id, clock, data, n).complete() <==> n == m.remaining(),
    decreases n,
{
    if n > 0 {
        let before = m.rounds(id, clock, data, (n - 1) as nat);
        lemma_download_completes(m, id, clock, data, (n - 1) as nat);
        lemma_remaining_zero(before);
        lemma_round(before, id, clock((n - 1) as nat), data);
    }
    lemma_remaining_zero(m.rounds(id, clock, data, n));
}

/// In a state in which every piece is missing, as many blocks are left to
/// be retrieved as the pieces have.
pub proof fn lemma_remaining_at_start(m: ManagerView, n: int)
    requires
        m.wf(),
        m.ongoing.len() == 0,
        0 <= n <= m.missing.len(),
    ensures
        open_in(m.missing, n) == blocks_in(m.missing, n),
        n == m.missing.len() ==> m.remaining() == blocks_in(m.missing, n),
    decreases n,
{
    if n > 0 {
        lemma_remaining_at_start(m, n - 1);
        let piece = m.missing[n - 1];
        assert(piece.untouched()) by {
            reveal(ManagerView::states_wf);
        }
        lemma_open_bounds(piece.blocks, piece.blocks.len() as int);
    }
}

/// The number of blocks of the first `n` pieces.
pub open spec fn blocks_in(pieces: Seq<PieceView>, n: int) -> nat
    decreases n,
{
    if n <= 0 {
        0
    } else {
        blocks_in(pieces, n - 1) + pieces[n - 1].blocks.len()
    }
}

} // verus!
