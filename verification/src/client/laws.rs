//! What the operations of the piece manager keep and bring about.

use super::layout::{block_layout, lemma_piece_size, Geometry};
use super::model::{holds, ManagerView, PendingView};
use super::{PieceView, Status};
use crate::search::lemma_first_where;
use vstd::prelude::*;

verus! {

/// Whether two pieces have the same index, hash and blocks, whatever the
/// state of the blocks.
pub open spec fn same_shape(a: PieceView, b: PieceView) -> bool {
    &&& a.index == b.index
    &&& a.hash_value == b.hash_value
    &&& a.blocks.len() == b.blocks.len()
    &&& forall|k: int|
        0 <= k < a.blocks.len() ==> (#[trigger] a.blocks[k]).with(Status::Missing, None)
            == b.blocks[k].with(Status::Missing, None)
}

/// A block of a laid-out piece names the piece and stands at a multiple of
/// 2^14.
pub proof fn lemma_laid_out_block(p: PieceView, g: Geometry, b: int)
    requires
        g.wf(),
        p.laid_out(g),
        0 <= b < p.blocks.len(),
    ensures
        p.blocks[b].piece == p.index,
        p.blocks[b].offset == b * 16384,
{
    lemma_piece_size(g, p.index as int);
    assert(p.blocks[b].with(Status::Missing, None) == block_layout(
        p.index as int,
        g.piece_size(p.index as int),
        b,
    ));
}

/// A laid-out piece has at least one block.
pub proof fn lemma_laid_out_nonempty(p: PieceView, g: Geometry)
    requires
        g.wf(),
        p.laid_out(g),
    ensures
        p.blocks.len() >= 1,
{
    lemma_piece_size(g, p.index as int);
}

/// The pieces of the three lists, by their position in `all_pieces`.
pub proof fn lemma_all_pieces(m: ManagerView)
    ensures
        m.all_pieces().len() == m.missing.len() + m.ongoing.len() + m.have.len(),
        forall|k: int| 0 <= k < m.missing.len() ==> #[trigger] m.all_pieces()[k] == m.missing[k],
        forall|k: int|
            0 <= k < m.ongoing.len() ==> #[trigger] m.all_pieces()[m.missing.len() + k]
                == m.ongoing[k],
        forall|k: int|
            0 <= k < m.have.len() ==> #[trigger] m.all_pieces()[m.missing.len() + m.ongoing.len()
                + k] == m.have[k],
{
}

/// In a valid state, every ongoing piece is laid out as the content asks,
/// and no two ongoing pieces have one index.
pub proof fn lemma_ongoing_pieces(m: ManagerView)
    requires
        m.pieces_wf(),
    ensures
        forall|k: int| 0 <= k < m.ongoing.len() ==> (#[trigger] m.ongoing[k]).laid_out(m.geometry),
        forall|a: int, b: int|
            0 <= a < b < m.ongoing.len() ==> (#[trigger] m.ongoing[a]).index != (
            #[trigger] m.ongoing[b]).index,
        forall|k: int| 0 <= k < m.missing.len() ==> (#[trigger] m.missing[k]).laid_out(m.geometry),
{
    reveal(ManagerView::pieces_wf);
    lemma_all_pieces(m);
    let base = m.missing.len() as int;
    assert forall|k: int| 0 <= k < m.ongoing.len() implies (#[trigger] m.ongoing[k]).laid_out(
        m.geometry,
    ) by {
        assert(m.all_pieces()[base + k] == m.ongoing[k]);
    }
    assert forall|a: int, b: int| 0 <= a < b < m.ongoing.len() implies (
    #[trigger] m.ongoing[a]).index != (#[trigger] m.ongoing[b]).index by {
        assert(m.all_pieces()[base + a] == m.ongoing[a]);
        assert(m.all_pieces()[base + b] == m.ongoing[b]);
    }
    assert forall|k: int| 0 <= k < m.missing.len() implies (#[trigger] m.missing[k]).laid_out(
        m.geometry,
    ) by {
        assert(m.all_pieces()[k] == m.missing[k]);
    }
}

/// Pieces that are those of a valid state in another order, each with the
/// shape it had, are laid out as the content asks and differ in their
/// indexes.
pub proof fn lemma_rearranged(m: ManagerView, after: ManagerView, sigma: spec_fn(int) -> int)
    requires
        m.geometry.wf(),
        m.pieces_wf(),
        after.geometry == m.geometry,
        after.all_pieces().len() == m.all_pieces().len(),
        forall|a: int|
            0 <= a < after.all_pieces().len() ==> 0 <= #[trigger] sigma(a) < m.all_pieces().len()
                && same_shape(after.all_pieces()[a], m.all_pieces()[sigma(a)]),
        forall|a: int, b: int|
            0 <= a < b < after.all_pieces().len() ==> #[trigger] sigma(a) != #[trigger] sigma(b),
    ensures
        after.pieces_wf(),
{
    reveal(ManagerView::pieces_wf);
    let g = m.geometry;
    assert forall|a: int| 0 <= a < after.all_pieces().len() implies (
    #[trigger] after.all_pieces()[a]).laid_out(g) by {
        let p = after.all_pieces()[a];
        let q = m.all_pieces()[sigma(a)];
        assert(same_shape(p, q));
        assert(q.laid_out(g));
        assert forall|k: int| 0 <= k < p.blocks.len() implies (#[trigger] p.blocks[k]).with(
            Status::Missing,
            None,
        ) == block_layout(p.index as int, g.piece_size(p.index as int), k) by {
            assert(q.blocks[k].with(Status::Missing, None) == block_layout(
                q.index as int,
                g.piece_size(q.index as int),
                k,
            ));
        }
    }
    assert forall|a: int, b: int| 0 <= a < b < after.all_pieces().len() implies (
    #[trigger] after.all_pieces()[a]).index != (#[trigger] after.all_pieces()[b]).index by {
        assert(same_shape(after.all_pieces()[a], m.all_pieces()[sigma(a)]));
        assert(same_shape(after.all_pieces()[b], m.all_pieces()[sigma(b)]));
        let x = sigma(a);
        let y = sigma(b);
        assert(x != y);
        if x < y {
            assert(m.all_pieces()[x].index != m.all_pieces()[y].index);
        } else {
            assert(m.all_pieces()[y].index != m.all_pieces()[x].index);
        }
    }
}

/// Changing the state of the blocks of one ongoing piece leaves every piece
/// where it is and laid out as the content asks.
pub proof fn lemma_reshaped(m: ManagerView, after: ManagerView, k: int)
    requires
        m.geometry.wf(),
        m.pieces_wf(),
        0 <= k < m.ongoing.len(),
        after.geometry == m.geometry,
        after.missing == m.missing,
        after.have == m.have,
        after.ongoing.len() == m.ongoing.len(),
        forall|j: int| 0 <= j < m.ongoing.len() && j != k ==> after.ongoing[j] == m.ongoing[j],
        same_shape(after.ongoing[k], m.ongoing[k]),
    ensures
        after.pieces_wf(),
{
    lemma_all_pieces(m);
    lemma_all_pieces(after);
    let base = m.missing.len() as int;
    let sigma = |a: int| a;
    assert forall|a: int| 0 <= a < after.all_pieces().len() implies 0 <= #[trigger] sigma(a)
        < m.all_pieces().len() && same_shape(after.all_pieces()[a], m.all_pieces()[sigma(a)]) by {
        if a < base {
            assert(after.all_pieces()[a] == after.missing[a]);
            assert(m.all_pieces()[a] == m.missing[a]);
        } else if a < base + m.ongoing.len() {
            assert(after.all_pieces()[base + (a - base)] == after.ongoing[a - base]);
            assert(m.all_pieces()[base + (a - base)] == m.ongoing[a - base]);
        } else {
            let h = a - base - m.ongoing.len();
            assert(after.all_pieces()[base + after.ongoing.len() + h] == after.have[h]);
            assert(m.all_pieces()[base + m.ongoing.len() + h] == m.have[h]);
        }
    }
    lemma_rearranged(m, after, sigma);
}

/// In a valid state, the piece index and the offset of a block of an
/// ongoing piece tell which block it is.
pub proof fn lemma_block_place(m: ManagerView, k1: int, b1: int, k2: int, b2: int)
    requires
        m.geometry.wf(),
        m.pieces_wf(),
        0 <= k1 < m.ongoing.len(),
        0 <= b1 < m.ongoing[k1].blocks.len(),
        0 <= k2 < m.ongoing.len(),
        0 <= b2 < m.ongoing[k2].blocks.len(),
        m.ongoing[k1].blocks[b1].piece == m.ongoing[k2].blocks[b2].piece,
        m.ongoing[k1].blocks[b1].offset == m.ongoing[k2].blocks[b2].offset,
    ensures
        k1 == k2,
        b1 == b2,
{
    lemma_ongoing_pieces(m);
    lemma_laid_out_block(m.ongoing[k1], m.geometry, b1);
    lemma_laid_out_block(m.ongoing[k2], m.geometry, b2);
    if k1 < k2 {
        assert(m.ongoing[k1].index != m.ongoing[k2].index);
    } else if k2 < k1 {
        assert(m.ongoing[k2].index != m.ongoing[k1].index);
    }
}

/// The place of the block that a request is for.
pub open spec fn place_of(m: ManagerView, e: PendingView) -> (int, int) {
    choose|k: int, b: int|
        0 <= k < m.ongoing.len() && 0 <= b < m.ongoing[k].blocks.len()
            && #[trigger] m.ongoing[k].blocks[b] == e.block && e.block.status == Status::Pending
}

/// In a valid state, every request is for a pending block of an ongoing
/// piece, which `place_of` names.
pub proof fn lemma_place_of(m: ManagerView, e: int)
    requires
        m.requests_wf(),
        0 <= e < m.pending.len(),
    ensures
        ({
            let (k, b) = place_of(m, m.pending[e]);
            &&& 0 <= k < m.ongoing.len()
            &&& 0 <= b < m.ongoing[k].blocks.len()
            &&& m.ongoing[k].blocks[b] == m.pending[e].block
            &&& m.pending[e].block.status == Status::Pending
        }),
{
    reveal(ManagerView::requests_wf);
    assert(m.tracks(m.pending[e]));
}

/// In a valid state, no two requests are for one block.
pub proof fn lemma_requests_differ(m: ManagerView, x: int, y: int)
    requires
        m.requests_wf(),
        0 <= x < m.pending.len(),
        0 <= y < m.pending.len(),
        x != y,
    ensures
        m.pending[x].block != m.pending[y].block,
{
    reveal(ManagerView::requests_wf);
    if x < y {
        assert(m.pending[x].block != m.pending[y].block);
    } else {
        assert(m.pending[y].block != m.pending[x].block);
    }
}

/// The position of a request for block `b` of the ongoing piece at
/// position `k`.
pub open spec fn request_for(m: ManagerView, k: int, b: int) -> int {
    choose|e: int|
        0 <= e < m.pending.len() && (#[trigger] m.pending[e]).block == m.ongoing[k].blocks[b]
}

/// In a valid state, a request is under way for every pending block of an
/// ongoing piece.
pub proof fn lemma_request_for(m: ManagerView, k: int, b: int)
    requires
        m.requests_wf(),
        0 <= k < m.ongoing.len(),
        0 <= b < m.ongoing[k].blocks.len(),
        m.ongoing[k].blocks[b].status == Status::Pending,
    ensures
        0 <= request_for(m, k, b) < m.pending.len(),
        m.pending[request_for(m, k, b)].block == m.ongoing[k].blocks[b],
{
    reveal(ManagerView::requests_wf);
    assert(m.awaited(k, b));
}

/// Requests that each have a pending block of their own, and leave no
/// pending block without one, are valid.
pub proof fn lemma_requests_wf(
    after: ManagerView,
    place: spec_fn(int) -> (int, int),
    request: spec_fn(int, int) -> int,
)
    requires
        forall|e: int|
            0 <= e < after.pending.len() ==> ({
                let (k, b) = #[trigger] place(e);
                &&& 0 <= k < after.ongoing.len()
                &&& 0 <= b < after.ongoing[k].blocks.len()
                &&& after.ongoing[k].blocks[b] == after.pending[e].block
                &&& after.pending[e].block.status == Status::Pending
            }),
        forall|x: int, y: int|
            0 <= x < y < after.pending.len() ==> (#[trigger] after.pending[x]).block != (
            #[trigger] after.pending[y]).block,
        forall|k: int, b: int|
            0 <= k < after.ongoing.len() && 0 <= b < after.ongoing[k].blocks.len() && (
            #[trigger] after.ongoing[k].blocks[b]).status == Status::Pending ==> 0 <= request(k, b)
                < after.pending.len() && after.pending[request(k, b)].block
                == after.ongoing[k].blocks[b],
    ensures
        after.requests_wf(),
{
    reveal(ManagerView::requests_wf);
    assert forall|e: int| 0 <= e < after.pending.len() implies after.tracks(
        #[trigger] after.pending[e],
    ) by {
        let (k, b) = place(e);
        assert(after.ongoing[k].blocks[b] == after.pending[e].block);
    }
    assert forall|k: int, b: int|
        0 <= k < after.ongoing.len() && 0 <= b < after.ongoing[k].blocks.len() && (
        #[trigger] after.ongoing[k].blocks[b]).status == Status::Pending implies after.awaited(
        k,
        b,
    ) by {
        let e = request(k, b);
        assert(after.pending[e].block == after.ongoing[k].blocks[b]);
    }
}

/// A state that differs from a valid one in its peers only, and knows no
/// peer twice, is valid.
pub proof fn lemma_peers_wf(a: ManagerView, b: ManagerView)
    requires
        a.wf(),
        b == a.with_peers(b.peers),
        forall|i: int, j: int|
            0 <= i < j < b.peers.len() ==> (#[trigger] b.peers[i]).id != (#[trigger] b.peers[j]).id,
    ensures
        b.wf(),
{
    reveal(ManagerView::pieces_wf);
    reveal(ManagerView::states_wf);
    reveal(ManagerView::peers_wf);
    assert(b.all_pieces() == a.all_pieces());
    assert(b.pieces_wf());
    assert(b.states_wf());
    assert(b.requests_wf()) by {
        let place = |e: int| place_of(a, a.pending[e]);
        let request = |k: int, n: int| request_for(a, k, n);
        assert forall|e: int| 0 <= e < b.pending.len() implies ({
            let (k, n) = #[trigger] place(e);
            &&& 0 <= k < b.ongoing.len()
            &&& 0 <= n < b.ongoing[k].blocks.len()
            &&& b.ongoing[k].blocks[n] == b.pending[e].block
            &&& b.pending[e].block.status == Status::Pending
        }) by {
            lemma_place_of(a, e);
        }
        assert forall|x: int, y: int| 0 <= x < y < b.pending.len() implies (
        #[trigger] b.pending[x]).block != (#[trigger] b.pending[y]).block by {
            lemma_requests_differ(a, x, y);
        }
        assert forall|k: int, n: int|
            0 <= k < b.ongoing.len() && 0 <= n < b.ongoing[k].blocks.len() && (
            #[trigger] b.ongoing[k].blocks[n]).status == Status::Pending implies 0 <= request(k, n)
            < b.pending.len() && b.pending[request(k, n)].block == b.ongoing[k].blocks[n] by {
            lemma_request_for(a, k, n);
        }
        lemma_requests_wf(b, place, request);
    }
}

/// Registering a peer keeps the state valid.
pub proof fn lemma_with_peer_wf(m: ManagerView, id: Seq<char>, bitfield: Seq<u8>)
    requires
        m.wf(),
    ensures
        m.with_peer(id, bitfield).wf(),
{
    reveal(ManagerView::peers_wf);
    m.lemma_peer_pos(id);
    lemma_peers_wf(m, m.with_peer(id, bitfield));
}

/// Noting that a peer holds a piece keeps the state valid.
pub proof fn lemma_with_have_wf(m: ManagerView, id: Seq<char>, index: u32)
    requires
        m.wf(),
    ensures
        m.with_have(id, index).wf(),
{
    reveal(ManagerView::peers_wf);
    m.lemma_peer_pos(id);
    lemma_peers_wf(m, m.with_have(id, index));
}

/// Forgetting a peer keeps the state valid.
pub proof fn lemma_without_peer_wf(m: ManagerView, id: Seq<char>)
    requires
        m.wf(),
    ensures
        m.without_peer(id).wf(),
{
    reveal(ManagerView::peers_wf);
    m.lemma_peer_pos(id);
    lemma_peers_wf(m, m.without_peer(id));
}

/// Making an expired request again keeps the state valid.
pub proof fn lemma_expired_step_wf(m: ManagerView, id: Seq<char>, now: u128)
    requires
        m.wf(),
    ensures
        m.expired_step(id, now).0.wf(),
        m.expired_step(id, now).1 is None ==> m.expired_step(id, now).0 == m,
{
    let after = m.expired_step(id, now).0;
    if after != m {
        let bitfield = m.bitfield_of(id)->0;
        m.lemma_first_expired(bitfield, now);
        let k = m.first_expired(bitfield, now);
        assert(after.all_pieces() == m.all_pieces());
        assert(after.pieces_wf()) by {
            reveal(ManagerView::pieces_wf);
        }
        assert(after.states_wf()) by {
            reveal(ManagerView::states_wf);
        }
        assert(after.peers_wf()) by {
            reveal(ManagerView::peers_wf);
        }
        assert(after.requests_wf()) by {
            let place = |e: int| place_of(m, m.pending[e]);
            let request = |j: int, n: int| request_for(m, j, n);
            assert forall|e: int| 0 <= e < after.pending.len() implies ({
                let (j, n) = #[trigger] place(e);
                &&& 0 <= j < after.ongoing.len()
                &&& 0 <= n < after.ongoing[j].blocks.len()
                &&& after.ongoing[j].blocks[n] == after.pending[e].block
                &&& after.pending[e].block.status == Status::Pending
            }) by {
                lemma_place_of(m, e);
                assert(after.pending[e].block == m.pending[e].block);
            }
            assert forall|x: int, y: int| 0 <= x < y < after.pending.len() implies (
            #[trigger] after.pending[x]).block != (#[trigger] after.pending[y]).block by {
                lemma_requests_differ(m, x, y);
                assert(after.pending[x].block == m.pending[x].block);
                assert(after.pending[y].block == m.pending[y].block);
            }
            assert forall|j: int, n: int|
                0 <= j < after.ongoing.len() && 0 <= n < after.ongoing[j].blocks.len() && (
                #[trigger] after.ongoing[j].blocks[n]).status == Status::Pending implies 0
                <= request(j, n) < after.pending.len() && after.pending[request(j, n)].block
                == after.ongoing[j].blocks[n] by {
                lemma_request_for(m, j, n);
                assert(after.pending[request(j, n)].block == m.pending[request(j, n)].block);
            }
            lemma_requests_wf(after, place, request);
        }
    }
}

/// Asking for the next missing block of an ongoing piece keeps the state
/// valid.
pub proof fn lemma_asked_wf(m: ManagerView, k: int, now: u128)
    requires
        m.wf(),
        0 <= k < m.ongoing.len(),
        m.ongoing[k].has_missing(),
    ensures
        m.asked(k, now).wf(),
{
    let after = m.asked(k, now);
    let piece = m.ongoing[k];
    piece.lemma_first_missing();
    let b = piece.first_missing();
    let block = piece.next_block()->0;
    let asked_piece = piece.requested();
    assert(asked_piece.blocks == piece.blocks.update(b, block));
    assert(piece.in_progress()) by {
        reveal(ManagerView::states_wf);
    }
    assert(piece.blocks[b].data is None);
    assert(after.peers_wf()) by {
        reveal(ManagerView::peers_wf);
    }
    assert(after.pieces_wf()) by {
        assert(same_shape(asked_piece, piece));
        lemma_reshaped(m, after, k);
    }
    assert(after.states_wf()) by {
        reveal(ManagerView::states_wf);
        assert forall|j: int| 0 <= j < after.ongoing.len() implies (
        #[trigger] after.ongoing[j]).in_progress() by {
            if j == k {
                assert(asked_piece.blocks[b].status != Status::Retrieved);
                assert forall|n: int| 0 <= n < asked_piece.blocks.len() implies ((
                #[trigger] asked_piece.blocks[n]).status == Status::Retrieved
                    <==> asked_piece.blocks[n].data is Some) by {
                    if n != b {
                        assert(asked_piece.blocks[n] == piece.blocks[n]);
                    }
                }
            } else {
                assert(after.ongoing[j] == m.ongoing[j]);
                assert(m.ongoing[j].in_progress());
            }
        }
    }
    assert(after.requests_wf()) by {
        let last = m.pending.len() as int;
        let place = |e: int|
            if e < last {
                place_of(m, m.pending[e])
            } else {
                (k, b)
            };
        let request = |j: int, n: int|
            if j == k && n == b {
                last
            } else {
                request_for(m, j, n)
            };
        assert forall|e: int| 0 <= e < after.pending.len() implies ({
            let (j, n) = #[trigger] place(e);
            &&& 0 <= j < after.ongoing.len()
            &&& 0 <= n < after.ongoing[j].blocks.len()
            &&& after.ongoing[j].blocks[n] == after.pending[e].block
            &&& after.pending[e].block.status == Status::Pending
        }) by {
            if e < last {
                lemma_place_of(m, e);
                let (j, n) = place_of(m, m.pending[e]);
                assert(after.pending[e] == m.pending[e]);
                if j == k {
                    assert(n != b);
                    assert(after.ongoing[j].blocks[n] == m.ongoing[j].blocks[n]);
                } else {
                    assert(after.ongoing[j] == m.ongoing[j]);
                }
            } else {
                assert(after.pending[e].block == block);
                assert(after.ongoing[k].blocks[b] == block);
            }
        }
        assert forall|x: int, y: int| 0 <= x < y < after.pending.len() implies (
        #[trigger] after.pending[x]).block != (#[trigger] after.pending[y]).block by {
            assert(after.pending[x] == m.pending[x]);
            if y < last {
                assert(after.pending[y] == m.pending[y]);
                lemma_requests_differ(m, x, y);
            } else {
                assert(after.pending[y].block == block);
                lemma_place_of(m, x);
                let (j, n) = place_of(m, m.pending[x]);
                if m.pending[x].block == block {
                    lemma_block_place(m, j, n, k, b);
                }
            }
        }
        assert forall|j: int, n: int|
            0 <= j < after.ongoing.len() && 0 <= n < after.ongoing[j].blocks.len() && (
            #[trigger] after.ongoing[j].blocks[n]).status == Status::Pending implies 0 <= request(
            j,
            n,
        ) < after.pending.len() && after.pending[request(j, n)].block
            == after.ongoing[j].blocks[n] by {
            if j == k && n == b {
                assert(after.pending[last].block == after.ongoing[j].blocks[n]);
            } else {
                assert(after.ongoing[j].blocks[n] == m.ongoing[j].blocks[n]);
                lemma_request_for(m, j, n);
                assert(after.pending[request_for(m, j, n)] == m.pending[request_for(m, j, n)]);
            }
        }
        lemma_requests_wf(after, place, request);
    }
}

/// Asking for the next block of an ongoing piece keeps the state valid.
pub proof fn lemma_ongoing_step_wf(m: ManagerView, id: Seq<char>, now: u128)
    requires
        m.wf(),
    ensures
        m.ongoing_step(id, now).0.wf(),
        m.ongoing_step(id, now).1 is None ==> m.ongoing_step(id, now).0 == m,
{
    if m.bitfield_of(id) is Some {
        let bitfield = m.bitfield_of(id)->0;
        m.lemma_first_workable(bitfield);
        let k = m.first_workable(bitfield);
        if k < m.ongoing.len() {
            lemma_asked_wf(m, k, now);
        }
    }
}

/// What `rarest_upto` picks among the first `n` missing pieces: a piece
/// that the peer holds, and such that no other of them that the peer holds
/// is held by fewer peers, or by as many and has a lower index. It picks
/// none only when the peer holds none of them.
pub proof fn lemma_rarest_upto(m: ManagerView, bitfield: Seq<u8>, n: int)
    requires
        0 <= n <= m.missing.len(),
    ensures
        -1 <= m.rarest_upto(bitfield, n) < n,
        m.rarest_upto(bitfield, n) >= 0 ==> holds(
            bitfield,
            m.missing[m.rarest_upto(bitfield, n)].index as int,
        ),
        forall|j: int|
            0 <= j < n && holds(bitfield, (#[trigger] m.missing[j]).index as int)
                ==> m.rarest_upto(bitfield, n) >= 0 && !m.rarer(j, m.rarest_upto(bitfield, n)),
    decreases n,
{
    if n > 0 {
        lemma_rarest_upto(m, bitfield, n - 1);
        let best = m.rarest_upto(bitfield, n - 1);
        let pick = m.rarest_upto(bitfield, n);
        assert forall|j: int|
            0 <= j < n && holds(bitfield, (#[trigger] m.missing[j]).index as int) implies pick >= 0
            && !m.rarer(j, pick) by {
            if j < n - 1 {
                assert(best >= 0 && !m.rarer(j, best));
            }
        }
    }
}

/// Starting a missing piece keeps the state valid.
pub proof fn lemma_started_wf(m: ManagerView, k: int)
    requires
        m.wf(),
        0 <= k < m.missing.len(),
    ensures
        m.started(k).wf(),
{
    let after = m.started(k);
    let piece = m.missing[k];
    lemma_all_pieces(m);
    lemma_all_pieces(after);
    let mlen = m.missing.len() as int;
    let olen = m.ongoing.len() as int;
    lemma_ongoing_pieces(m);
    lemma_laid_out_nonempty(piece, m.geometry);
    assert(after.peers_wf()) by {
        reveal(ManagerView::peers_wf);
    }
    assert(after.pieces_wf()) by {
        let sigma = |a: int|
            if a < k {
                a
            } else if a < mlen - 1 + olen {
                a + 1
            } else if a == mlen - 1 + olen {
                k
            } else {
                a
            };
        assert forall|a: int| 0 <= a < after.all_pieces().len() implies 0 <= #[trigger] sigma(a)
            < m.all_pieces().len() && same_shape(
            after.all_pieces()[a],
            m.all_pieces()[sigma(a)],
        ) by {
            if a < mlen - 1 {
                assert(after.all_pieces()[a] == after.missing[a]);
                assert(m.all_pieces()[sigma(a)] == m.missing[sigma(a)]);
            } else if a < mlen - 1 + olen {
                let j = a - (mlen - 1);
                assert(after.all_pieces()[(mlen - 1) + j] == after.ongoing[j]);
                assert(m.all_pieces()[mlen + j] == m.ongoing[j]);
            } else if a == mlen - 1 + olen {
                assert(after.all_pieces()[(mlen - 1) + olen] == after.ongoing[olen]);
                assert(m.all_pieces()[k] == piece);
            } else {
                let h = a - mlen - olen;
                assert(after.all_pieces()[(mlen - 1) + (olen + 1) + h] == after.have[h]);
                assert(m.all_pieces()[mlen + olen + h] == m.have[h]);
            }
        }
        lemma_rearranged(m, after, sigma);
    }
    assert(piece.untouched()) by {
        reveal(ManagerView::states_wf);
    }
    assert(after.states_wf()) by {
        reveal(ManagerView::states_wf);
        assert forall|j: int| 0 <= j < after.missing.len() implies (
        #[trigger] after.missing[j]).untouched() by {
            if j < k {
                assert(after.missing[j] == m.missing[j]);
            } else {
                assert(after.missing[j] == m.missing[j + 1]);
            }
        }
        assert forall|j: int| 0 <= j < after.ongoing.len() implies (
        #[trigger] after.ongoing[j]).in_progress() by {
            if j < olen {
                assert(after.ongoing[j] == m.ongoing[j]);
            } else {
                assert(piece.blocks[0].status == Status::Missing);
            }
        }
    }
    assert(after.requests_wf()) by {
        let place = |e: int| place_of(m, m.pending[e]);
        let request = |j: int, n: int| request_for(m, j, n);
        assert forall|e: int| 0 <= e < after.pending.len() implies ({
            let (j, n) = #[trigger] place(e);
            &&& 0 <= j < after.ongoing.len()
            &&& 0 <= n < after.ongoing[j].blocks.len()
            &&& after.ongoing[j].blocks[n] == after.pending[e].block
            &&& after.pending[e].block.status == Status::Pending
        }) by {
            lemma_place_of(m, e);
            let (j, n) = place_of(m, m.pending[e]);
            assert(after.ongoing[j] == m.ongoing[j]);
        }
        assert forall|x: int, y: int| 0 <= x < y < after.pending.len() implies (
        #[trigger] after.pending[x]).block != (#[trigger] after.pending[y]).block by {
            lemma_requests_differ(m, x, y);
        }
        assert forall|j: int, n: int|
            0 <= j < after.ongoing.len() && 0 <= n < after.ongoing[j].blocks.len() && (
            #[trigger] after.ongoing[j].blocks[n]).status == Status::Pending implies 0 <= request(
            j,
            n,
        ) < after.pending.len() && after.pending[request(j, n)].block
            == after.ongoing[j].blocks[n] by {
            if j < olen {
                assert(after.ongoing[j] == m.ongoing[j]);
                lemma_request_for(m, j, n);
            } else {
                assert(after.ongoing[j] == piece);
            }
        }
        lemma_requests_wf(after, place, request);
    }
}

/// Starting the rarest missing piece keeps the state valid.
pub proof fn lemma_rarest_step_wf(m: ManagerView, id: Seq<char>)
    requires
        m.wf(),
    ensures
        m.rarest_step(id).0.wf(),
        m.rarest_step(id).1 is None ==> m.rarest_step(id).0 == m,
{
    if m.bitfield_of(id) is Some {
        let bitfield = m.bitfield_of(id)->0;
        lemma_rarest_upto(m, bitfield, m.missing.len() as int);
        let k = m.rarest(bitfield);
        if k >= 0 {
            lemma_started_wf(m, k);
        }
    }
}

/// Starting the first missing piece that the peer holds and asking for its
/// first block keeps the state valid.
pub proof fn lemma_missing_step_wf(m: ManagerView, id: Seq<char>, now: u128)
    requires
        m.wf(),
    ensures
        m.missing_step(id, now).0.wf(),
{
    if m.bitfield_of(id) is Some {
        let bitfield = m.bitfield_of(id)->0;
        lemma_first_where(
            m.missing.len() as int,
            |k: int| holds(bitfield, m.missing[k].index as int),
        );
        let k = m.first_held_missing(bitfield);
        if k < m.missing.len() && m.missing[k].has_missing() {
            lemma_started_wf(m, k);
            lemma_asked_wf(m.started(k), m.ongoing.len() as int, now);
        }
    }
}

/// The scheduler keeps the state valid.
pub proof fn lemma_request_step_wf(m: ManagerView, id: Seq<char>, now: u128)
    requires
        m.wf(),
    ensures
        m.request_step(id, now).0.wf(),
{
    lemma_expired_step_wf(m, id, now);
    lemma_ongoing_step_wf(m, id, now);
    lemma_rarest_step_wf(m, id);
    lemma_ongoing_step_wf(m.rarest_step(id).0, id, now);
}

/// Where data for a block is taken in: the block that is meant, and the
/// request for it, which is the only one that leaves.
pub proof fn lemma_taken_place(m: ManagerView, piece: u64, offset: u64, length: int)
    requires
        m.wf(),
        m.accepts(piece, offset, length),
    ensures
        ({
            let k = m.ongoing_pos(piece);
            let b = m.ongoing[k].find_offset(offset);
            let e = m.pending_pos(piece, offset);
            &&& 0 <= k < m.ongoing.len()
            &&& 0 <= b < m.ongoing[k].blocks.len()
            &&& m.ongoing[k].blocks[b].status != Status::Retrieved
            &&& 0 <= e <= m.pending.len()
            &&& forall|x: int|
                0 <= x < m.pending.len() && (#[trigger] m.pending[x]).block == m.ongoing[k].blocks[b]
                    ==> x == e
            &&& forall|j: int, n: int|
                0 <= j < m.ongoing.len() && 0 <= n < m.ongoing[j].blocks.len() && (
                #[trigger] m.ongoing[j].blocks[n]) == m.pending[e].block && e < m.pending.len()
                    ==> j == k && n == b
        }),
{
    let k = m.ongoing_pos(piece);
    m.lemma_ongoing_pos(piece);
    let target = m.ongoing[k];
    let b = target.find_offset(offset);
    target.lemma_find_offset(offset);
    let e = m.pending_pos(piece, offset);
    m.lemma_pending_pos(piece, offset);
    lemma_ongoing_pieces(m);
    lemma_laid_out_block(target, m.geometry, b);
    assert forall|x: int|
        0 <= x < m.pending.len() && (#[trigger] m.pending[x]).block
            == target.blocks[b] implies x == e by {
        assert(e <= x);
        if e < x {
            lemma_place_of(m, e);
            let (j, n) = place_of(m, m.pending[e]);
            lemma_block_place(m, j, n, k, b);
            lemma_requests_differ(m, e, x);
        }
    }
    assert forall|j: int, n: int|
        0 <= j < m.ongoing.len() && 0 <= n < m.ongoing[j].blocks.len() && (
        #[trigger] m.ongoing[j].blocks[n]) == m.pending[e].block && e
            < m.pending.len() implies j == k && n == b by {
        lemma_block_place(m, j, n, k, b);
    }
}

/// Data of the right length for a block for which a request is under way
/// is taken in.
pub proof fn lemma_requested_is_taken(m: ManagerView, e: int)
    requires
        m.wf(),
        0 <= e < m.pending.len(),
    ensures
        m.accepts(
            m.pending[e].block.piece,
            m.pending[e].block.offset,
            m.pending[e].block.length as int,
        ),
        m.pending_pos(m.pending[e].block.piece, m.pending[e].block.offset) == e,
{
    let piece = m.pending[e].block.piece;
    let offset = m.pending[e].block.offset;
    lemma_place_of(m, e);
    let (k0, b0) = place_of(m, m.pending[e]);
    lemma_ongoing_pieces(m);
    lemma_laid_out_block(m.ongoing[k0], m.geometry, b0);
    m.lemma_ongoing_pos(piece);
    let k = m.ongoing_pos(piece);
    if k < k0 {
        assert(m.ongoing[k].index != m.ongoing[k0].index);
    }
    m.ongoing[k].lemma_find_offset(offset);
    let b = m.ongoing[k].find_offset(offset);
    if b < b0 {
        lemma_laid_out_block(m.ongoing[k], m.geometry, b);
    }
    m.lemma_pending_pos(piece, offset);
    let first = m.pending_pos(piece, offset);
    if first < e {
        lemma_place_of(m, first);
        let (k1, b1) = place_of(m, m.pending[first]);
        lemma_block_place(m, k1, b1, k0, b0);
        lemma_requests_differ(m, first, e);
    }
}

/// Taking in a block that leaves its piece ongoing, filled further or
/// cleared, keeps the state valid.
proof fn lemma_received_kept(m: ManagerView, piece: u64, offset: u64, data: Seq<u8>)
    requires
        m.wf(),
        m.accepts(piece, offset, data.len() as int),
        ({
            let filled = m.ongoing[m.ongoing_pos(piece)].received(offset, data);
            !(filled.is_complete() && filled.hash_matches())
        }),
    ensures
        m.received_step(piece, offset, data).0.wf(),
{
    let after = m.received_step(piece, offset, data).0;
    lemma_taken_place(m, piece, offset, data.len() as int);
    let k = m.ongoing_pos(piece);
    let target = m.ongoing[k];
    let b = target.find_offset(offset);
    let e = m.pending_pos(piece, offset);
    let filled = target.received(offset, data);
    let put = if filled.is_complete() {
        filled.cleared()
    } else {
        filled
    };
    lemma_ongoing_pieces(m);
    lemma_laid_out_nonempty(target, m.geometry);
    assert(target.in_progress()) by {
        reveal(ManagerView::states_wf);
    }
    assert(filled.blocks == target.blocks.update(
        b,
        target.blocks[b].with(Status::Retrieved, Some(data)),
    ));
    assert(after.ongoing == m.ongoing.update(k, put));
    assert(after.peers_wf()) by {
        reveal(ManagerView::peers_wf);
    }
    assert(after.pieces_wf()) by {
        assert(same_shape(put, target));
        lemma_reshaped(m, after, k);
    }
    assert(after.states_wf()) by {
        reveal(ManagerView::states_wf);
        assert forall|j: int| 0 <= j < after.ongoing.len() implies (
        #[trigger] after.ongoing[j]).in_progress() by {
            if j == k {
                if filled.is_complete() {
                    assert(put.blocks[0].status == Status::Missing);
                } else {
                    assert forall|n: int| 0 <= n < put.blocks.len() implies ((
                    #[trigger] put.blocks[n]).status == Status::Retrieved
                        <==> put.blocks[n].data is Some) by {
                        if n != b {
                            assert(put.blocks[n] == target.blocks[n]);
                        }
                    }
                }
            } else {
                assert(after.ongoing[j] == m.ongoing[j]);
                assert(m.ongoing[j].in_progress());
            }
        }
    }
    assert(after.requests_wf()) by {
        let was = |x: int|
            if x < e {
                x
            } else {
                x + 1
            };
        let place = |x: int| place_of(m, m.pending[was(x)]);
        let request = |j: int, n: int|
            if request_for(m, j, n) < e {
                request_for(m, j, n)
            } else {
                request_for(m, j, n) - 1
            };
        assert forall|x: int| 0 <= x < after.pending.len() implies ({
            let (j, n) = #[trigger] place(x);
            &&& 0 <= j < after.ongoing.len()
            &&& 0 <= n < after.ongoing[j].blocks.len()
            &&& after.ongoing[j].blocks[n] == after.pending[x].block
            &&& after.pending[x].block.status == Status::Pending
        }) by {
            let old_x = was(x);
            assert(after.pending[x] == m.pending[old_x]);
            lemma_place_of(m, old_x);
            let (j, n) = place_of(m, m.pending[old_x]);
            if j == k {
                assert(n != b);
                assert(filled.blocks[n] == target.blocks[n]);
                if filled.is_complete() {
                    assert(filled.blocks[n].status == Status::Retrieved);
                }
                assert(put.blocks[n] == target.blocks[n]);
            } else {
                assert(after.ongoing[j] == m.ongoing[j]);
            }
        }
        assert forall|x: int, y: int| 0 <= x < y < after.pending.len() implies (
        #[trigger] after.pending[x]).block != (#[trigger] after.pending[y]).block by {
            assert(after.pending[x] == m.pending[was(x)]);
            assert(after.pending[y] == m.pending[was(y)]);
            lemma_requests_differ(m, was(x), was(y));
        }
        assert forall|j: int, n: int|
            0 <= j < after.ongoing.len() && 0 <= n < after.ongoing[j].blocks.len() && (
            #[trigger] after.ongoing[j].blocks[n]).status == Status::Pending implies 0 <= request(
            j,
            n,
        ) < after.pending.len() && after.pending[request(j, n)].block
            == after.ongoing[j].blocks[n] by {
            if j == k {
                assert(!filled.is_complete());
                assert(n != b);
                assert(put.blocks[n] == target.blocks[n]);
            } else {
                assert(after.ongoing[j] == m.ongoing[j]);
            }
            assert(m.ongoing[j].blocks[n] == after.ongoing[j].blocks[n]);
            lemma_request_for(m, j, n);
            let r = request_for(m, j, n);
            assert(r != e);
            assert(after.pending[request(j, n)] == m.pending[r]);
        }
        lemma_requests_wf(after, place, request);
    }
}

/// Taking in a block that completes a piece whose hash matches keeps the
/// state valid.
proof fn lemma_received_sealed(m: ManagerView, piece: u64, offset: u64, data: Seq<u8>)
    requires
        m.wf(),
        m.accepts(piece, offset, data.len() as int),
        ({
            let filled = m.ongoing[m.ongoing_pos(piece)].received(offset, data);
            filled.is_complete() && filled.hash_matches()
        }),
    ensures
        m.received_step(piece, offset, data).0.wf(),
{
    let after = m.received_step(piece, offset, data).0;
    lemma_taken_place(m, piece, offset, data.len() as int);
    let k = m.ongoing_pos(piece);
    let target = m.ongoing[k];
    let b = target.find_offset(offset);
    let e = m.pending_pos(piece, offset);
    let filled = target.received(offset, data);
    let sealed = filled.sealed();
    lemma_all_pieces(m);
    lemma_all_pieces(after);
    let mlen = m.missing.len() as int;
    let olen = m.ongoing.len() as int;
    let hlen = m.have.len() as int;
    assert(filled.blocks == target.blocks.update(
        b,
        target.blocks[b].with(Status::Retrieved, Some(data)),
    ));
    assert(after.ongoing == m.ongoing.remove(k));
    assert(after.have == m.have.push(sealed));
    assert(after.peers_wf()) by {
        reveal(ManagerView::peers_wf);
    }
    assert(after.pieces_wf()) by {
        let sigma = |a: int|
            if a < mlen + k {
                a
            } else if a < mlen + olen - 1 + hlen {
                a + 1
            } else {
                mlen + k
            };
        assert forall|a: int| 0 <= a < after.all_pieces().len() implies 0 <= #[trigger] sigma(a)
            < m.all_pieces().len() && same_shape(
            after.all_pieces()[a],
            m.all_pieces()[sigma(a)],
        ) by {
            if a < mlen {
                assert(after.all_pieces()[a] == after.missing[a]);
                assert(m.all_pieces()[a] == m.missing[a]);
            } else if a < mlen + olen - 1 {
                let j = a - mlen;
                assert(after.all_pieces()[mlen + j] == after.ongoing[j]);
                if j < k {
                    assert(m.all_pieces()[mlen + j] == m.ongoing[j]);
                } else {
                    assert(m.all_pieces()[mlen + (j + 1)] == m.ongoing[j + 1]);
                }
            } else if a < mlen + olen - 1 + hlen {
                let h = a - mlen - (olen - 1);
                assert(after.all_pieces()[mlen + (olen - 1) + h] == after.have[h]);
                assert(m.all_pieces()[mlen + olen + h] == m.have[h]);
            } else {
                assert(after.all_pieces()[mlen + (olen - 1) + hlen] == after.have[hlen]);
                assert(m.all_pieces()[mlen + k] == target);
                assert(same_shape(sealed, target));
            }
        }
        lemma_rearranged(m, after, sigma);
    }
    assert(after.states_wf()) by {
        reveal(ManagerView::states_wf);
        assert forall|j: int| 0 <= j < after.ongoing.len() implies (
        #[trigger] after.ongoing[j]).in_progress() by {
            if j < k {
                assert(after.ongoing[j] == m.ongoing[j]);
            } else {
                assert(after.ongoing[j] == m.ongoing[j + 1]);
            }
        }
        assert forall|h: int| 0 <= h < after.have.len() implies (
        #[trigger] after.have[h]).verified() by {
            if h < hlen {
                assert(after.have[h] == m.have[h]);
            }
        }
    }
    assert(after.requests_wf()) by {
        let was = |x: int|
            if x < e {
                x
            } else {
                x + 1
            };
        let place = |x: int|
            {
                let (j, n) = place_of(m, m.pending[was(x)]);
                if j < k {
                    (j, n)
                } else {
                    (j - 1, n)
                }
            };
        let request = |j: int, n: int|
            {
                let r = request_for(
                    m,
                    if j < k {
                        j
                    } else {
                        j + 1
                    },
                    n,
                );
                if r < e {
                    r
                } else {
                    r - 1
                }
            };
        assert forall|x: int| 0 <= x < after.pending.len() implies ({
            let (j, n) = #[trigger] place(x);
            &&& 0 <= j < after.ongoing.len()
            &&& 0 <= n < after.ongoing[j].blocks.len()
            &&& after.ongoing[j].blocks[n] == after.pending[x].block
            &&& after.pending[x].block.status == Status::Pending
        }) by {
            let old_x = was(x);
            assert(after.pending[x] == m.pending[old_x]);
            lemma_place_of(m, old_x);
            let (j, n) = place_of(m, m.pending[old_x]);
            if j == k {
                assert(n != b);
                assert(filled.blocks[n] == target.blocks[n]);
                assert(filled.blocks[n].status == Status::Retrieved);
            }
            if j < k {
                assert(after.ongoing[j] == m.ongoing[j]);
            } else {
                assert(after.ongoing[j - 1] == m.ongoing[j]);
            }
        }
        assert forall|x: int, y: int| 0 <= x < y < after.pending.len() implies (
        #[trigger] after.pending[x]).block != (#[trigger] after.pending[y]).block by {
            assert(after.pending[x] == m.pending[was(x)]);
            assert(after.pending[y] == m.pending[was(y)]);
            lemma_requests_differ(m, was(x), was(y));
        }
        assert forall|j: int, n: int|
            0 <= j < after.ongoing.len() && 0 <= n < after.ongoing[j].blocks.len() && (
            #[trigger] after.ongoing[j].blocks[n]).status == Status::Pending implies 0 <= request(
            j,
            n,
        ) < after.pending.len() && after.pending[request(j, n)].block
            == after.ongoing[j].blocks[n] by {
            let old_j = if j < k {
                j
            } else {
                j + 1
            };
            assert(after.ongoing[j] == m.ongoing[old_j]);
            lemma_request_for(m, old_j, n);
            let r = request_for(m, old_j, n);
            assert(r != e);
            assert(after.pending[request(j, n)] == m.pending[r]);
        }
        lemma_requests_wf(after, place, request);
    }
}

/// Taking in a block keeps the state valid.
pub proof fn lemma_received_step_wf(m: ManagerView, piece: u64, offset: u64, data: Seq<u8>)
    requires
        m.wf(),
    ensures
        m.received_step(piece, offset, data).0.wf(),
{
    if m.accepts(piece, offset, data.len() as int) {
        let filled = m.ongoing[m.ongoing_pos(piece)].received(offset, data);
        if filled.is_complete() && filled.hash_matches() {
            lemma_received_sealed(m, piece, offset, data);
        } else {
            lemma_received_kept(m, piece, offset, data);
        }
    }
}

} // verus!
