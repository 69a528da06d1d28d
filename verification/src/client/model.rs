//! The piece manager as a mathematical state, and its operations as
//! functions from state to state.

use super::layout::{block_count, block_layout, Geometry};
use super::{BlockView, PieceView, Status};
use crate::search::{first_where, lemma_first_where, lemma_first_where_is};
use vstd::prelude::*;

verus! {

/// How long a request may stay unanswered before it is made again, in
/// milliseconds.
pub const MAX_PENDING_TIME: u32 = 300_000;

/// The model of a request that is under way.
pub struct PendingView {
    pub block: BlockView,
    pub added: u128,
}

/// The model of what a peer says that it holds.
pub struct PeerView {
    pub id: Seq<char>,
    pub bitfield: Seq<u8>,
}

/// The model of the bytes of a verified piece and the place in the file
/// where they belong.
pub struct PieceWriteView {
    pub offset: u64,
    pub data: Seq<u8>,
}

/// The model of the piece manager.
pub struct ManagerView {
    pub geometry: Geometry,
    pub peers: Seq<PeerView>,
    pub pending: Seq<PendingView>,
    pub missing: Seq<PieceView>,
    pub ongoing: Seq<PieceView>,
    pub have: Seq<PieceView>,
}

/// Whether `bitfield` says that the peer holds piece `index`.
pub open spec fn holds(bitfield: Seq<u8>, index: int) -> bool {
    0 <= index < bitfield.len() && bitfield[index] != 0
}

/// The number of the first `n` peers that hold piece `index`.
pub open spec fn holders_upto(peers: Seq<PeerView>, index: int, n: int) -> nat
    decreases n,
{
    if n <= 0 {
        0
    } else if holds(peers[n - 1].bitfield, index) {
        holders_upto(peers, index, n - 1) + 1
    } else {
        holders_upto(peers, index, n - 1)
    }
}

impl PieceView {
    /// Whether a request can be made for a block of the piece.
    pub open spec fn has_missing(self) -> bool {
        self.first_missing() < self.blocks.len()
    }
}

impl ManagerView {
    /// The state with other peers.
    pub open spec fn with_peers(self, peers: Seq<PeerView>) -> ManagerView {
        ManagerView { peers, ..self }
    }

    /// The state with other requests under way.
    pub open spec fn with_pending(self, pending: Seq<PendingView>) -> ManagerView {
        ManagerView { pending, ..self }
    }

    /// The state with other ongoing pieces.
    pub open spec fn with_ongoing(self, ongoing: Seq<PieceView>) -> ManagerView {
        ManagerView { ongoing, ..self }
    }

    /// The position of the peer `id`; the number of peers when it is not
    /// known.
    pub open spec fn peer_pos(self, id: Seq<char>) -> int {
        first_where(self.peers.len() as int, |k: int| self.peers[k].id == id)
    }

    /// What the peer `id` says that it holds; nothing when it is not known.
    pub open spec fn bitfield_of(self, id: Seq<char>) -> Option<Seq<u8>> {
        let k = self.peer_pos(id);
        if k < self.peers.len() {
            Some(self.peers[k].bitfield)
        } else {
            None
        }
    }

    /// The state after the peer `id` has been registered with `bitfield`,
    /// which replaces what was known of it.
    pub open spec fn with_peer(self, id: Seq<char>, bitfield: Seq<u8>) -> ManagerView {
        let k = self.peer_pos(id);
        if k < self.peers.len() {
            self.with_peers(self.peers.update(k, PeerView { id, bitfield }))
        } else {
            self.with_peers(self.peers.push(PeerView { id, bitfield }))
        }
    }

    /// The state after the peer `id` has said that it holds piece `index`:
    /// unchanged when the peer is not known or its bitfield is too short.
    pub open spec fn with_have(self, id: Seq<char>, index: u32) -> ManagerView {
        let k = self.peer_pos(id);
        if k < self.peers.len() && index < self.peers[k].bitfield.len() {
            self.with_peers(
                self.peers.update(
                    k,
                    PeerView { id, bitfield: self.peers[k].bitfield.update(index as int, 1u8) },
                ),
            )
        } else {
            self
        }
    }

    /// The state after the peer `id` has gone.
    pub open spec fn without_peer(self, id: Seq<char>) -> ManagerView {
        let k = self.peer_pos(id);
        if k < self.peers.len() {
            self.with_peers(self.peers.remove(k))
        } else {
            self
        }
    }

    /// Whether every piece has been verified.
    pub open spec fn complete(self) -> bool {
        self.have.len() == self.geometry.piece_count()
    }

    /// The number of known peers that hold piece `index`.
    pub open spec fn holders(self, index: int) -> nat {
        holders_upto(self.peers, index, self.peers.len() as int)
    }

    /// Whether the request at position `k` is for a piece that the peer
    /// holds and was made more than `MAX_PENDING_TIME` before `now`.
    pub open spec fn is_expired(self, bitfield: Seq<u8>, now: u128, k: int) -> bool {
        &&& holds(bitfield, self.pending[k].block.piece as int)
        &&& self.pending[k].added + MAX_PENDING_TIME < now
    }

    /// The position of the first expired request that the peer can serve;
    /// the number of requests when there is none.
    pub open spec fn first_expired(self, bitfield: Seq<u8>, now: u128) -> int {
        first_where(self.pending.len() as int, |k: int| self.is_expired(bitfield, now, k))
    }

    /// The first tier of the scheduler: the first expired request that the
    /// peer can serve is made again, with `now` as its time.
    pub open spec fn expired_step(self, id: Seq<char>, now: u128) -> (ManagerView, Option<
        BlockView,
    >) {
        match self.bitfield_of(id) {
            None => (self, None),
            Some(bitfield) => {
                let k = self.first_expired(bitfield, now);
                if k < self.pending.len() {
                    (
                        self.with_pending(
                            self.pending.update(
                                k,
                                PendingView { block: self.pending[k].block, added: now },
                            ),
                        ),
                        Some(self.pending[k].block),
                    )
                } else {
                    (self, None)
                }
            },
        }
    }

    /// The position of the first ongoing piece that the peer holds and that
    /// has a missing block; the number of ongoing pieces when there is none.
    pub open spec fn first_workable(self, bitfield: Seq<u8>) -> int {
        first_where(
            self.ongoing.len() as int,
            |k: int| holds(bitfield, self.ongoing[k].index as int) && self.ongoing[k].has_missing(),
        )
    }

    /// The state after the next missing block of the ongoing piece at
    /// position `k` has been asked for at the time `now`: the block is
    /// pending, and a request for it is under way.
    pub open spec fn asked(self, k: int, now: u128) -> ManagerView {
        ManagerView {
            ongoing: self.ongoing.update(k, self.ongoing[k].requested()),
            pending: self.pending.push(
                PendingView { block: self.ongoing[k].next_block()->0, added: now },
            ),
            ..self
        }
    }

    /// The state after the missing piece at position `k` has been started:
    /// it is the last ongoing piece.
    pub open spec fn started(self, k: int) -> ManagerView {
        ManagerView {
            missing: self.missing.remove(k),
            ongoing: self.ongoing.push(self.missing[k]),
            ..self
        }
    }

    /// The second tier of the scheduler: the next missing block of the first
    /// ongoing piece that the peer holds becomes pending, and a request for
    /// it is recorded with `now` as its time.
    pub open spec fn ongoing_step(self, id: Seq<char>, now: u128) -> (ManagerView, Option<
        BlockView,
    >) {
        match self.bitfield_of(id) {
            None => (self, None),
            Some(bitfield) => {
                let k = self.first_workable(bitfield);
                if k < self.ongoing.len() {
                    (self.asked(k, now), self.ongoing[k].next_block())
                } else {
                    (self, None)
                }
            },
        }
    }

    /// Whether the missing piece at position `a` is to be picked before the
    /// one at position `b`: fewer peers hold it, or as many and its index is
    /// lower.
    pub open spec fn rarer(self, a: int, b: int) -> bool {
        let held_a = self.holders(self.missing[a].index as int);
        let held_b = self.holders(self.missing[b].index as int);
        held_a < held_b || (held_a == held_b && self.missing[a].index < self.missing[b].index)
    }

    /// The position of the piece to pick among the first `n` missing pieces:
    /// one that the peer holds and before which no other that the peer holds
    /// is to be picked; -1 when the peer holds none of them.
    pub open spec fn rarest_upto(self, bitfield: Seq<u8>, n: int) -> int
        decreases n,
    {
        if n <= 0 {
            -1
        } else {
            let best = self.rarest_upto(bitfield, n - 1);
            if !holds(bitfield, self.missing[n - 1].index as int) {
                best
            } else if best < 0 || self.rarer(n - 1, best) {
                n - 1
            } else {
                best
            }
        }
    }

    /// The position of the missing piece to start next for a peer with
    /// `bitfield`; -1 when the peer holds no missing piece.
    pub open spec fn rarest(self, bitfield: Seq<u8>) -> int {
        self.rarest_upto(bitfield, self.missing.len() as int)
    }

    /// The third tier of the scheduler, first half: the rarest missing piece
    /// that the peer holds becomes the last ongoing piece.
    pub open spec fn rarest_step(self, id: Seq<char>) -> (ManagerView, Option<PieceView>) {
        match self.bitfield_of(id) {
            None => (self, None),
            Some(bitfield) => {
                let k = self.rarest(bitfield);
                if k >= 0 {
                    (self.started(k), Some(self.missing[k]))
                } else {
                    (self, None)
                }
            },
        }
    }

    /// The scheduler: the first of the three tiers that yields a block.
    pub open spec fn request_step(self, id: Seq<char>, now: u128) -> (ManagerView, Option<
        BlockView,
    >) {
        let first = self.expired_step(id, now);
        let second = self.ongoing_step(id, now);
        let third = self.rarest_step(id);
        if first.1 is Some {
            first
        } else if second.1 is Some {
            second
        } else if third.1 is Some {
            third.0.ongoing_step(id, now)
        } else {
            (self, None)
        }
    }

    /// The position of the first missing piece that the peer holds; the
    /// number of missing pieces when there is none.
    pub open spec fn first_held_missing(self, bitfield: Seq<u8>) -> int {
        first_where(
            self.missing.len() as int,
            |k: int| holds(bitfield, self.missing[k].index as int),
        )
    }

    /// The first missing piece that the peer holds becomes the last ongoing
    /// piece, and its first block is asked for.
    pub open spec fn missing_step(self, id: Seq<char>, now: u128) -> (ManagerView, Option<
        BlockView,
    >) {
        match self.bitfield_of(id) {
            None => (self, None),
            Some(bitfield) => {
                let k = self.first_held_missing(bitfield);
                if k < self.missing.len() && self.missing[k].has_missing() {
                    (
                        self.started(k).asked(self.ongoing.len() as int, now),
                        self.missing[k].next_block(),
                    )
                } else {
                    (self, None)
                }
            },
        }
    }

    /// The position of the first request for the block of `piece` at
    /// `offset`; the number of requests when there is none.
    pub open spec fn pending_pos(self, piece: u64, offset: u64) -> int {
        first_where(
            self.pending.len() as int,
            |k: int| self.pending[k].block.piece == piece && self.pending[k].block.offset == offset,
        )
    }

    /// The position of the first ongoing piece with index `piece`; the
    /// number of ongoing pieces when there is none.
    pub open spec fn ongoing_pos(self, piece: u64) -> int {
        first_where(self.ongoing.len() as int, |k: int| self.ongoing[k].index as u64 == piece)
    }

    /// The state without the first request for the block of `piece` at
    /// `offset`.
    pub open spec fn answered(self, piece: u64, offset: u64) -> ManagerView {
        let k = self.pending_pos(piece, offset);
        if k < self.pending.len() {
            self.with_pending(self.pending.remove(k))
        } else {
            self
        }
    }

    /// Whether `length` bytes of data for the block of `piece` at `offset`
    /// are taken in: the piece is ongoing, it has a block at that offset,
    /// that block has not been retrieved before, and it has exactly that
    /// length.
    pub open spec fn accepts(self, piece: u64, offset: u64, length: int) -> bool {
        let k = self.ongoing_pos(piece);
        &&& k < self.ongoing.len()
        &&& self.ongoing[k].find_offset(offset) < self.ongoing[k].blocks.len()
        &&& self.ongoing[k].blocks[self.ongoing[k].find_offset(offset)].status
            != Status::Retrieved
        &&& self.ongoing[k].blocks[self.ongoing[k].find_offset(offset)].length == length
    }

    /// What becomes of the arrival of `data` for the block of `piece` at
    /// `offset`: the new state, and the bytes to write to the file when the
    /// arrival completes a piece whose hash matches.
    ///
    /// Data that is not taken in changes nothing. Data that is taken in is
    /// stored, and the request for its block is dropped; when it completes
    /// the piece and the hash matches, the piece moves to the verified ones;
    /// when the hash does not match, the piece is cleared and stays ongoing.
    pub open spec fn received_step(self, piece: u64, offset: u64, data: Seq<u8>) -> (
        ManagerView,
        Option<PieceWriteView>,
    ) {
        let answered = self.answered(piece, offset);
        if !self.accepts(piece, offset, data.len() as int) {
            (self, None)
        } else {
            let k = self.ongoing_pos(piece);
            let filled = self.ongoing[k].received(offset, data);
            if !filled.is_complete() {
                (answered.with_ongoing(self.ongoing.update(k, filled)), None)
            } else if filled.hash_matches() {
                (
                    ManagerView {
                        ongoing: self.ongoing.remove(k),
                        have: self.have.push(filled.sealed()),
                        ..answered
                    },
                    Some(
                        PieceWriteView {
                            offset: (filled.index * self.geometry.piece_length) as u64,
                            data: filled.payload()->0,
                        },
                    ),
                )
            } else {
                (answered.with_ongoing(self.ongoing.update(k, filled.cleared())), None)
            }
        }
    }
}

impl PieceView {
    /// Whether the piece has the index, the hash and the blocks that the
    /// layout of the content gives it, whatever the state of the blocks.
    pub open spec fn laid_out(self, g: Geometry) -> bool {
        let size = g.piece_size(self.index as int);
        &&& self.index < g.piece_count()
        &&& self.hash_value == g.piece_hash(self.index as int)
        &&& self.blocks.len() == block_count(size)
        &&& forall|k: int|
            0 <= k < self.blocks.len() ==> (#[trigger] self.blocks[k]).with(Status::Missing, None)
                == block_layout(self.index as int, size, k)
    }

    /// Whether every block is missing and holds no data.
    pub open spec fn untouched(self) -> bool {
        forall|k: int|
            0 <= k < self.blocks.len() ==> (#[trigger] self.blocks[k]).status == Status::Missing
                && self.blocks[k].data is None
    }

    /// Whether the blocks that hold data are the retrieved ones, each holds
    /// as many bytes as its length says, and not every block is retrieved.
    pub open spec fn in_progress(self) -> bool {
        &&& forall|k: int|
            0 <= k < self.blocks.len() ==> ((#[trigger] self.blocks[k]).status == Status::Retrieved
                <==> self.blocks[k].data is Some)
        &&& forall|k: int|
            0 <= k < self.blocks.len() && (#[trigger] self.blocks[k]).data is Some
                ==> self.blocks[k].data->0.len() == self.blocks[k].length
        &&& !self.is_complete()
    }

    /// Whether every block is retrieved and its data has been handed on.
    pub open spec fn verified(self) -> bool {
        forall|k: int|
            0 <= k < self.blocks.len() ==> (#[trigger] self.blocks[k]).status == Status::Retrieved
                && self.blocks[k].data is None
    }
}

impl ManagerView {
    /// The missing, the ongoing and the verified pieces, in this order.
    pub open spec fn all_pieces(self) -> Seq<PieceView> {
        self.missing + self.ongoing + self.have
    }

    /// Whether the request `e` is for a pending block of an ongoing piece.
    pub open spec fn tracks(self, e: PendingView) -> bool {
        exists|k: int, b: int|
            0 <= k < self.ongoing.len() && 0 <= b < self.ongoing[k].blocks.len()
                && #[trigger] self.ongoing[k].blocks[b] == e.block && e.block.status
                == Status::Pending
    }

    /// Whether a request is under way for block `b` of the ongoing piece at
    /// position `k`.
    pub open spec fn awaited(self, k: int, b: int) -> bool {
        exists|e: int|
            0 <= e < self.pending.len() && (#[trigger] self.pending[e]).block
                == self.ongoing[k].blocks[b]
    }

    /// Whether every piece of the content is in exactly one of the three
    /// lists, with the blocks that the layout gives it.
    #[verifier::opaque]
    pub open spec fn pieces_wf(self) -> bool {
        &&& self.all_pieces().len() == self.geometry.piece_count()
        &&& forall|a: int|
            0 <= a < self.all_pieces().len() ==> (#[trigger] self.all_pieces()[a]).laid_out(
                self.geometry,
            )
        &&& forall|a: int, b: int|
            0 <= a < b < self.all_pieces().len() ==> (#[trigger] self.all_pieces()[a]).index != (
            #[trigger] self.all_pieces()[b]).index
    }

    /// Whether every missing piece is untouched, every ongoing piece is not
    /// complete, and every verified piece is.
    #[verifier::opaque]
    pub open spec fn states_wf(self) -> bool {
        &&& forall|k: int| 0 <= k < self.missing.len() ==> (#[trigger] self.missing[k]).untouched()
        &&& forall|k: int| 0 <= k < self.ongoing.len() ==> (#[trigger] self.ongoing[k]).in_progress()
        &&& forall|k: int| 0 <= k < self.have.len() ==> (#[trigger] self.have[k]).verified()
    }

    /// Whether the requests under way are those for the pending blocks of
    /// the ongoing pieces, one for each.
    #[verifier::opaque]
    pub open spec fn requests_wf(self) -> bool {
        &&& forall|e: int| 0 <= e < self.pending.len() ==> self.tracks(#[trigger] self.pending[e])
        &&& forall|a: int, b: int|
            0 <= a < b < self.pending.len() ==> (#[trigger] self.pending[a]).block != (
            #[trigger] self.pending[b]).block
        &&& forall|k: int, b: int|
            0 <= k < self.ongoing.len() && 0 <= b < self.ongoing[k].blocks.len() && (
            #[trigger] self.ongoing[k].blocks[b]).status == Status::Pending ==> self.awaited(k, b)
    }

    /// Whether no peer is known twice.
    #[verifier::opaque]
    pub open spec fn peers_wf(self) -> bool {
        forall|a: int, b: int|
            0 <= a < b < self.peers.len() ==> (#[trigger] self.peers[a]).id != (
            #[trigger] self.peers[b]).id
    }

    /// The invariant of the piece manager.
    ///
    /// Every piece of the content is in exactly one of the three lists, with
    /// the blocks that the layout gives it. A missing piece is untouched, an
    /// ongoing piece is not complete, a verified piece is. The requests
    /// under way are those for the pending blocks of the ongoing pieces, one
    /// for each. No peer is known twice.
    pub open spec fn wf(self) -> bool {
        &&& self.geometry.wf()
        &&& self.pieces_wf()
        &&& self.states_wf()
        &&& self.requests_wf()
        &&& self.peers_wf()
    }
}

impl ManagerView {
    /// A position that holds the peer `id` and before which no peer has that
    /// id is `peer_pos`.
    pub proof fn lemma_peer_pos_is(self, id: Seq<char>, r: int)
        requires
            0 <= r <= self.peers.len(),
            forall|j: int| 0 <= j < r ==> (#[trigger] self.peers[j]).id != id,
            r < self.peers.len() ==> self.peers[r].id == id,
        ensures
            self.peer_pos(id) == r,
    {
        lemma_first_where_is(self.peers.len() as int, |k: int| self.peers[k].id == id, r);
    }

    /// `peer_pos` is a position that holds the peer `id`, or the number of
    /// peers when no peer has that id.
    pub proof fn lemma_peer_pos(self, id: Seq<char>)
        ensures
            0 <= self.peer_pos(id) <= self.peers.len(),
            forall|j: int| 0 <= j < self.peer_pos(id) ==> (#[trigger] self.peers[j]).id != id,
            self.peer_pos(id) < self.peers.len() ==> self.peers[self.peer_pos(id)].id == id,
    {
        let p = |k: int| self.peers[k].id == id;
        lemma_first_where(self.peers.len() as int, p);
        assert forall|j: int| 0 <= j < self.peer_pos(id) implies (#[trigger] self.peers[j]).id
            != id by {
            assert(!p(j));
        }
    }
}

impl ManagerView {
    /// A position that holds an expired request that the peer can serve, and
    /// before which there is none, is `first_expired`.
    pub proof fn lemma_first_expired_is(self, bitfield: Seq<u8>, now: u128, r: int)
        requires
            0 <= r <= self.pending.len(),
            forall|j: int| 0 <= j < r ==> !self.is_expired(bitfield, now, j),
            r < self.pending.len() ==> self.is_expired(bitfield, now, r),
        ensures
            self.first_expired(bitfield, now) == r,
    {
        lemma_first_where_is(
            self.pending.len() as int,
            |k: int| self.is_expired(bitfield, now, k),
            r,
        );
    }

    /// `first_expired` is a position that holds an expired request that the
    /// peer can serve, and before which there is none.
    pub proof fn lemma_first_expired(self, bitfield: Seq<u8>, now: u128)
        ensures
            0 <= self.first_expired(bitfield, now) <= self.pending.len(),
            forall|j: int|
                0 <= j < self.first_expired(bitfield, now) ==> !self.is_expired(bitfield, now, j),
            self.first_expired(bitfield, now) < self.pending.len() ==> self.is_expired(
                bitfield,
                now,
                self.first_expired(bitfield, now),
            ),
    {
        let p = |k: int| self.is_expired(bitfield, now, k);
        lemma_first_where(self.pending.len() as int, p);
        assert forall|j: int| 0 <= j < self.first_expired(bitfield, now) implies !self.is_expired(
            bitfield,
            now,
            j,
        ) by {
            assert(!p(j));
        }
    }

    /// Whether the ongoing piece at position `k` is one that the peer holds
    /// and that has a missing block.
    pub open spec fn is_workable(self, bitfield: Seq<u8>, k: int) -> bool {
        holds(bitfield, self.ongoing[k].index as int) && self.ongoing[k].has_missing()
    }

    /// A position that holds an ongoing piece to work on, and before which
    /// there is none, is `first_workable`.
    pub proof fn lemma_first_workable_is(self, bitfield: Seq<u8>, r: int)
        requires
            0 <= r <= self.ongoing.len(),
            forall|j: int| 0 <= j < r ==> !self.is_workable(bitfield, j),
            r < self.ongoing.len() ==> self.is_workable(bitfield, r),
        ensures
            self.first_workable(bitfield) == r,
    {
        let p = |k: int|
            holds(bitfield, self.ongoing[k].index as int) && self.ongoing[k].has_missing();
        assert forall|j: int| 0 <= j < r implies !(#[trigger] p(j)) by {
            assert(!self.is_workable(bitfield, j));
        }
        if r < self.ongoing.len() {
            assert(self.is_workable(bitfield, r));
        }
        lemma_first_where_is(self.ongoing.len() as int, p, r);
    }

    /// `first_workable` is a position that holds an ongoing piece to work
    /// on, and before which there is none.
    pub proof fn lemma_first_workable(self, bitfield: Seq<u8>)
        ensures
            0 <= self.first_workable(bitfield) <= self.ongoing.len(),
            forall|j: int|
                0 <= j < self.first_workable(bitfield) ==> !self.is_workable(bitfield, j),
            self.first_workable(bitfield) < self.ongoing.len() ==> self.is_workable(
                bitfield,
                self.first_workable(bitfield),
            ),
    {
        let p = |k: int|
            holds(bitfield, self.ongoing[k].index as int) && self.ongoing[k].has_missing();
        lemma_first_where(self.ongoing.len() as int, p);
        assert forall|j: int| 0 <= j < self.first_workable(bitfield) implies !self.is_workable(
            bitfield,
            j,
        ) by {
            assert(!p(j));
        }
    }
}

impl PieceView {
    /// `first_missing` is the position of a missing block before which no
    /// block is missing, or the number of blocks.
    pub proof fn lemma_first_missing(self)
        ensures
            0 <= self.first_missing() <= self.blocks.len(),
            forall|j: int|
                0 <= j < self.first_missing() ==> (#[trigger] self.blocks[j]).status
                    != Status::Missing,
            self.first_missing() < self.blocks.len() ==> self.blocks[self.first_missing()].status
                == Status::Missing,
    {
        let p = |k: int| self.blocks[k].status == Status::Missing;
        lemma_first_where(self.blocks.len() as int, p);
        assert forall|j: int| 0 <= j < self.first_missing() implies (
        #[trigger] self.blocks[j]).status != Status::Missing by {
            assert(!p(j));
        }
    }

    /// `find_offset` is the position of a block at `offset` before which no
    /// block stands at `offset`, or the number of blocks.
    pub proof fn lemma_find_offset(self, offset: u64)
        ensures
            0 <= self.find_offset(offset) <= self.blocks.len(),
            forall|j: int|
                0 <= j < self.find_offset(offset) ==> (#[trigger] self.blocks[j]).offset != offset,
            self.find_offset(offset) < self.blocks.len() ==> self.blocks[self.find_offset(
                offset,
            )].offset == offset,
    {
        let p = |k: int| self.blocks[k].offset == offset;
        lemma_first_where(self.blocks.len() as int, p);
        assert forall|j: int| 0 <= j < self.find_offset(offset) implies (
        #[trigger] self.blocks[j]).offset != offset by {
            assert(!p(j));
        }
    }
}

impl ManagerView {
    /// A position that holds a missing piece that the peer holds, and before
    /// which there is none, is `first_held_missing`.
    pub proof fn lemma_first_held_missing_is(self, bitfield: Seq<u8>, r: int)
        requires
            0 <= r <= self.missing.len(),
            forall|j: int|
                0 <= j < r ==> !holds(bitfield, (#[trigger] self.missing[j]).index as int),
            r < self.missing.len() ==> holds(bitfield, self.missing[r].index as int),
        ensures
            self.first_held_missing(bitfield) == r,
    {
        lemma_first_where_is(
            self.missing.len() as int,
            |k: int| holds(bitfield, self.missing[k].index as int),
            r,
        );
    }

    /// A position that holds a request for the block of `piece` at `offset`,
    /// and before which there is none, is `pending_pos`.
    pub proof fn lemma_pending_pos_is(self, piece: u64, offset: u64, r: int)
        requires
            0 <= r <= self.pending.len(),
            forall|j: int|
                0 <= j < r ==> !((#[trigger] self.pending[j]).block.piece == piece
                    && self.pending[j].block.offset == offset),
            r < self.pending.len() ==> self.pending[r].block.piece == piece
                && self.pending[r].block.offset == offset,
        ensures
            self.pending_pos(piece, offset) == r,
    {
        lemma_first_where_is(
            self.pending.len() as int,
            |k: int| self.pending[k].block.piece == piece && self.pending[k].block.offset == offset,
            r,
        );
    }

    /// `pending_pos` is a position that holds a request for the block of
    /// `piece` at `offset`, and before which there is none.
    pub proof fn lemma_pending_pos(self, piece: u64, offset: u64)
        ensures
            0 <= self.pending_pos(piece, offset) <= self.pending.len(),
            forall|j: int|
                0 <= j < self.pending_pos(piece, offset) ==> !((
                #[trigger] self.pending[j]).block.piece == piece && self.pending[j].block.offset
                    == offset),
            self.pending_pos(piece, offset) < self.pending.len() ==> self.pending[self.pending_pos(
                piece,
                offset,
            )].block.piece == piece && self.pending[self.pending_pos(piece, offset)].block.offset
                == offset,
    {
        let p = |k: int|
            self.pending[k].block.piece == piece && self.pending[k].block.offset == offset;
        lemma_first_where(self.pending.len() as int, p);
        assert forall|j: int| 0 <= j < self.pending_pos(piece, offset) implies !((
        #[trigger] self.pending[j]).block.piece == piece && self.pending[j].block.offset
            == offset) by {
            assert(!p(j));
        }
    }

    /// A position that holds an ongoing piece with index `piece`, and before
    /// which there is none, is `ongoing_pos`.
    pub proof fn lemma_ongoing_pos_is(self, piece: u64, r: int)
        requires
            0 <= r <= self.ongoing.len(),
            forall|j: int| 0 <= j < r ==> (#[trigger] self.ongoing[j]).index as u64 != piece,
            r < self.ongoing.len() ==> self.ongoing[r].index as u64 == piece,
        ensures
            self.ongoing_pos(piece) == r,
    {
        lemma_first_where_is(
            self.ongoing.len() as int,
            |k: int| self.ongoing[k].index as u64 == piece,
            r,
        );
    }

    /// `ongoing_pos` is a position that holds an ongoing piece with index
    /// `piece`, and before which there is none.
    pub proof fn lemma_ongoing_pos(self, piece: u64)
        ensures
            0 <= self.ongoing_pos(piece) <= self.ongoing.len(),
            forall|j: int|
                0 <= j < self.ongoing_pos(piece) ==> (#[trigger] self.ongoing[j]).index as u64
                    != piece,
            self.ongoing_pos(piece) < self.ongoing.len() ==> self.ongoing[self.ongoing_pos(
                piece,
            )].index as u64 == piece,
    {
        let p = |k: int| self.ongoing[k].index as u64 == piece;
        lemma_first_where(self.ongoing.len() as int, p);
        assert forall|j: int| 0 <= j < self.ongoing_pos(piece) implies (
        #[trigger] self.ongoing[j]).index as u64 != piece by {
            assert(!p(j));
        }
    }
}

impl ManagerView {
    /// Whether a peer with `bitfield` holds a piece that is still needed:
    /// one that is missing or ongoing.
    pub open spec fn needs(self, bitfield: Seq<u8>) -> bool {
        ||| exists|k: int|
            0 <= k < self.missing.len() && holds(bitfield, (#[trigger] self.missing[k]).index as int)
        ||| exists|k: int|
            0 <= k < self.ongoing.len() && holds(bitfield, (#[trigger] self.ongoing[k]).index as int)
    }

    /// Whether the peer `id` is known and holds a piece that is still
    /// needed.
    pub open spec fn wants(self, id: Seq<char>) -> bool {
        self.bitfield_of(id) matches Some(bitfield) && self.needs(bitfield)
    }
}

} // verus!
