//! Laws of the scheduler: which piece is picked, when a request is made
//! again, and what becomes of a piece that arrives corrupt.

use super::account::{indexes_differ, lemma_index_occurs, lemma_payload_length};
use super::laws::{lemma_block_place, lemma_laid_out_block, lemma_ongoing_pieces, lemma_place_of,
    lemma_rarest_upto, lemma_received_step_wf, lemma_request_step_wf, lemma_requests_differ,
    lemma_started_wf, lemma_taken_place, place_of};
use super::layout::{block_layout, lemma_piece_size};
use super::model::{holds, ManagerView, PendingView, PieceWriteView, MAX_PENDING_TIME};
use super::Status;
use vstd::prelude::*;

verus! {

/// Every piece of the content is in exactly one place of exactly one of the
/// three lists.
pub proof fn lemma_every_piece_once(m: ManagerView, i: int)
    requires
        m.wf(),
        0 <= i < m.geometry.piece_count(),
    ensures
        exists|a: int| 0 <= a < m.all_pieces().len() && (#[trigger] m.all_pieces()[a]).index == i,
        forall|a: int, b: int|
            0 <= a < m.all_pieces().len() && 0 <= b < m.all_pieces().len() && (
            #[trigger] m.all_pieces()[a]).index == i && (#[trigger] m.all_pieces()[b]).index == i
                ==> a == b,
{
    reveal(ManagerView::pieces_wf);
    let all = m.all_pieces();
    let count = m.geometry.piece_count();
    assert(indexes_differ(all, count)) by {
        assert forall|a: int| 0 <= a < all.len() implies (#[trigger] all[a]).index < count by {
            assert(all[a].laid_out(m.geometry));
        }
    }
    lemma_index_occurs(all, count, i);
    assert forall|a: int, b: int|
        0 <= a < all.len() && 0 <= b < all.len() && (#[trigger] all[a]).index == i && (
        #[trigger] all[b]).index == i implies a == b by {
        if a < b {
            assert(all[a].index != all[b].index);
        } else if b < a {
            assert(all[b].index != all[a].index);
        }
    }
}

/// The piece that the third tier starts is a missing piece
/// that the peer holds; no other missing piece that the peer holds is held
/// by fewer known peers, or by as many and has a lower index. The tier
/// starts nothing only for a peer that is not known or holds no missing
/// piece.
pub proof fn lemma_rarest_first(m: ManagerView, id: Seq<char>)
    ensures
        match m.rarest_step(id).1 {
            Some(piece) => {
                &&& m.bitfield_of(id) is Some
                &&& exists|k: int|
                    0 <= k < m.missing.len() && #[trigger] m.missing[k] == piece && m.rarest_step(
                        id,
                    ).0 == m.started(k)
                &&& holds(m.bitfield_of(id)->0, piece.index as int)
                &&& forall|j: int|
                    0 <= j < m.missing.len() && holds(
                        m.bitfield_of(id)->0,
                        (#[trigger] m.missing[j]).index as int,
                    ) ==> {
                        ||| m.holders(piece.index as int) < m.holders(m.missing[j].index as int)
                        ||| m.holders(piece.index as int) == m.holders(m.missing[j].index as int)
                            && piece.index <= m.missing[j].index
                    }
            },
            None => m.rarest_step(id).0 == m && (m.bitfield_of(id) matches Some(bitfield)
                ==> forall|j: int|
                0 <= j < m.missing.len() ==> !holds(bitfield, (#[trigger] m.missing[j]).index as int)),
        },
{
    if m.bitfield_of(id) is Some {
        let bitfield = m.bitfield_of(id)->0;
        lemma_rarest_upto(m, bitfield, m.missing.len() as int);
        let k = m.rarest(bitfield);
        if k >= 0 {
            assert(m.missing[k] == m.rarest_step(id).1->0);
            assert forall|j: int|
                0 <= j < m.missing.len() && holds(
                    bitfield,
                    (#[trigger] m.missing[j]).index as int,
                ) implies {
                ||| m.holders(m.missing[k].index as int) < m.holders(m.missing[j].index as int)
                ||| m.holders(m.missing[k].index as int) == m.holders(m.missing[j].index as int)
                    && m.missing[k].index <= m.missing[j].index
            } by {
                assert(!m.rarer(j, k));
            }
        }
    }
}

/// A block that the scheduler hands out is the block of a request under
/// way, made at the time of the call.
pub proof fn lemma_request_is_recorded(m: ManagerView, id: Seq<char>, now: u128)
    requires
        m.wf(),
    ensures
        m.request_step(id, now).1 matches Some(block) ==> exists|e: int|
            0 <= e < m.request_step(id, now).0.pending.len() && #[trigger] m.request_step(
                id,
                now,
            ).0.pending[e] == (PendingView { block, added: now }),
{
    let after = m.request_step(id, now).0;
    if m.request_step(id, now).1 is Some {
        let bitfield = m.bitfield_of(id)->0;
        if m.expired_step(id, now).1 is Some {
            m.lemma_first_expired(bitfield, now);
            let e = m.first_expired(bitfield, now);
            assert(after.pending[e] == (PendingView { block: m.pending[e].block, added: now }));
        } else if m.ongoing_step(id, now).1 is Some {
            let e = m.pending.len() as int;
            assert(after.pending[e].added == now);
        } else {
            let started = m.rarest_step(id).0;
            let e = started.pending.len() as int;
            assert(after.pending[e].added == now);
        }
    }
}

/// A request that has been unanswered for more
/// than `MAX_PENDING_TIME`, for a piece that the peer holds, is made again
/// at the next call of the scheduler for that peer, before any other
/// request that stands behind it; its time becomes the time of the call.
pub proof fn lemma_expired_is_requested_again(m: ManagerView, id: Seq<char>, now: u128, e: int)
    requires
        m.wf(),
        m.bitfield_of(id) is Some,
        0 <= e < m.pending.len(),
        m.is_expired(m.bitfield_of(id)->0, now, e),
        forall|j: int| 0 <= j < e ==> !m.is_expired(m.bitfield_of(id)->0, now, j),
    ensures
        m.request_step(id, now).1 == Some(m.pending[e].block),
        m.request_step(id, now).0.pending == m.pending.update(
            e,
            PendingView { block: m.pending[e].block, added: now },
        ),
{
    m.lemma_first_expired_is(m.bitfield_of(id)->0, now, e);
}

/// A request that has not been unanswered for
/// more than `MAX_PENDING_TIME` is not made again: the scheduler hands out
/// another block, or none.
pub proof fn lemma_not_requested_before_expiry(m: ManagerView, id: Seq<char>, now: u128, e: int)
    requires
        m.wf(),
        0 <= e < m.pending.len(),
        m.pending[e].added + MAX_PENDING_TIME >= now,
    ensures
        m.request_step(id, now).1 != Some(m.pending[e].block),
{
    let held = m.pending[e].block;
    lemma_place_of(m, e);
    let (k0, b0) = place_of(m, m.pending[e]);
    if m.request_step(id, now).1 is Some {
        let bitfield = m.bitfield_of(id)->0;
        if m.expired_step(id, now).1 is Some {
            m.lemma_first_expired(bitfield, now);
            let k = m.first_expired(bitfield, now);
            lemma_requests_differ(m, k, e);
        } else if m.ongoing_step(id, now).1 is Some {
            m.lemma_first_workable(bitfield);
            let k = m.first_workable(bitfield);
            m.ongoing[k].lemma_first_missing();
            let b = m.ongoing[k].first_missing();
            if m.ongoing[k].next_block() == Some(held) {
                lemma_block_place(m, k0, b0, k, b);
            }
        } else {
            lemma_rarest_upto(m, bitfield, m.missing.len() as int);
            let k = m.rarest(bitfield);
            lemma_started_wf(m, k);
            let started = m.started(k);
            let last = m.ongoing.len() as int;
            started.lemma_first_workable(bitfield);
            let w = started.first_workable(bitfield);
            if w < started.ongoing.len() {
                started.ongoing[w].lemma_first_missing();
                let b = started.ongoing[w].first_missing();
                assert(started.ongoing[k0] == m.ongoing[k0]);
                if started.ongoing[w].next_block() == Some(held) {
                    lemma_block_place(started, k0, b0, w, b);
                }
            }
        }
    }
}

/// When the last block of a piece
/// arrives and the hash of the piece does not match, the piece stays
/// ongoing with every block missing and without data, nothing is to be
/// written, and no piece is added to the verified ones.
pub proof fn lemma_corrupt_piece_is_cleared(
    m: ManagerView,
    piece: u64,
    offset: u64,
    data: Seq<u8>,
)
    requires
        m.wf(),
        m.accepts(piece, offset, data.len() as int),
        m.ongoing[m.ongoing_pos(piece)].received(offset, data).is_complete(),
        !m.ongoing[m.ongoing_pos(piece)].received(offset, data).hash_matches(),
    ensures
        ({
            let after = m.received_step(piece, offset, data);
            let k = m.ongoing_pos(piece);
            &&& after.1 is None
            &&& after.0.wf()
            &&& after.0.have == m.have
            &&& after.0.missing == m.missing
            &&& after.0.ongoing.len() == m.ongoing.len()
            &&& after.0.ongoing[k].index == m.ongoing[k].index
            &&& after.0.ongoing[k].untouched()
        }),
{
    lemma_received_step_wf(m, piece, offset, data);
    lemma_taken_place(m, piece, offset, data.len() as int);
}

/// When
/// the last block of a piece arrives and the hash of the piece matches, the
/// piece leaves the ongoing ones and becomes the last verified one, and its
/// bytes, all blocks one after the other and as many as the piece has, are
/// to be written at the place of the piece in the file: its index times the
/// piece length.
pub proof fn lemma_matching_piece_is_written(
    m: ManagerView,
    piece: u64,
    offset: u64,
    data: Seq<u8>,
)
    requires
        m.wf(),
        m.accepts(piece, offset, data.len() as int),
        m.ongoing[m.ongoing_pos(piece)].received(offset, data).is_complete(),
        m.ongoing[m.ongoing_pos(piece)].received(offset, data).hash_matches(),
    ensures
        ({
            let after = m.received_step(piece, offset, data);
            let k = m.ongoing_pos(piece);
            let filled = m.ongoing[k].received(offset, data);
            &&& after.0.wf()
            &&& after.0.ongoing == m.ongoing.remove(k)
            &&& after.0.have == m.have.push(filled.sealed())
            &&& filled.index == piece
            &&& filled.payload() is Some
            &&& filled.payload()->0.len() == m.geometry.piece_size(piece as int)
            &&& after.1 == Some(
                PieceWriteView {
                    offset: (piece * m.geometry.piece_length) as u64,
                    data: filled.payload()->0,
                },
            )
        }),
{
    lemma_received_step_wf(m, piece, offset, data);
    lemma_taken_place(m, piece, offset, data.len() as int);
    m.lemma_ongoing_pos(piece);
    let target = m.ongoing[m.ongoing_pos(piece)];
    let b = target.find_offset(offset);
    let filled = target.received(offset, data);
    lemma_ongoing_pieces(m);
    assert(target.in_progress()) by {
        reveal(ManagerView::states_wf);
    }
    assert(filled.laid_out(m.geometry)) by {
        assert forall|n: int| 0 <= n < filled.blocks.len() implies (
        #[trigger] filled.blocks[n]).with(Status::Missing, None) == target.blocks[n].with(
            Status::Missing,
            None,
        ) by {}
    }
    assert forall|n: int| 0 <= n < filled.blocks.len() implies (
    #[trigger] filled.blocks[n]).data is Some && filled.blocks[n].data->0.len()
        == filled.blocks[n].length by {
        if n != b {
            assert(filled.blocks[n] == target.blocks[n]);
            assert(filled.blocks[n].status == Status::Retrieved);
        }
    }
    lemma_payload_length(filled, m.geometry, filled.blocks.len() as int);
    let index = target.index;
    assert(index * m.geometry.piece_length <= u64::MAX) by (nonlinear_arith)
        requires
            0 <= index <= u32::MAX,
            0 <= m.geometry.piece_length <= u32::MAX,
    ;
}

/// Data for a block that has been retrieved already, for a piece that is
/// not ongoing, for an offset at which the piece has no block, or of
/// another length than the block has, is discarded: nothing changes and
/// nothing is to be written.
pub proof fn lemma_late_block_is_discarded(m: ManagerView, piece: u64, offset: u64, data: Seq<u8>)
    requires
        !m.accepts(piece, offset, data.len() as int),
    ensures
        m.received_step(piece, offset, data) == (m, None::<PieceWriteView>),
{
}

/// A block that the scheduler hands out belongs to a piece of the content,
/// starts within 32 bits, and has between one byte and 2^14.
pub proof fn lemma_request_in_bounds(m: ManagerView, id: Seq<char>, now: u128)
    requires
        m.wf(),
    ensures
        m.request_step(id, now).1 matches Some(block) ==> {
            &&& block.piece < m.geometry.piece_count()
            &&& block.offset <= u32::MAX
            &&& 0 < block.length <= 16384
            &&& block.status == Status::Pending
        },
{
    if m.request_step(id, now).1 is Some {
        let after = m.request_step(id, now).0;
        let block = m.request_step(id, now).1->0;
        lemma_request_step_wf(m, id, now);
        lemma_request_is_recorded(m, id, now);
        let e = choose|e: int|
            0 <= e < after.pending.len() && #[trigger] after.pending[e] == (PendingView {
                block,
                added: now,
            });
        lemma_place_of(after, e);
        let (k, b) = place_of(after, after.pending[e]);
        lemma_ongoing_pieces(after);
        let piece = after.ongoing[k];
        assert(piece.laid_out(after.geometry));
        lemma_piece_size(after.geometry, piece.index as int);
        lemma_laid_out_block(piece, after.geometry, b);
        assert(piece.blocks[b].with(Status::Missing, None) == block_layout(
            piece.index as int,
            after.geometry.piece_size(piece.index as int),
            b,
        ));
    }
}

} // verus!
