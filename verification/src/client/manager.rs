//! The piece manager: which block each peer fetches next, and what becomes
//! of the blocks that arrive.

use super::layout::{layout_pieces, lemma_piece_size};
use super::account::{lemma_downloaded, sizes_of};
use super::laws::{lemma_expired_step_wf, lemma_missing_step_wf, lemma_ongoing_step_wf,
    lemma_rarest_step_wf, lemma_received_step_wf, lemma_request_step_wf, lemma_with_have_wf,
    lemma_with_peer_wf, lemma_without_peer_wf};
use super::model::{holders_upto, holds, ManagerView, PeerView, PendingView, PieceWriteView,
    MAX_PENDING_TIME};
use super::{concat_data, copy_block, copy_piece, Block, BlockView, Piece, PieceView, Status};
use crate::torrent::Torrent;
use crate::trusted::now_millis;
use vstd::prelude::*;

verus! {

/// A request that is under way, and when it was made, in milliseconds.
#[derive(Debug, Clone)]
pub struct PendingRequest {
    pub block: Block,
    pub added: u128,
}

impl View for PendingRequest {
    type V = PendingView;

    open spec fn view(&self) -> PendingView {
        PendingView { block: self.block@, added: self.added }
    }
}

/// What a peer says that it holds: one byte for each piece, zero for a
/// piece that the peer does not hold.
pub struct PeerRecord {
    pub id: String,
    pub bitfield: Vec<u8>,
}

impl View for PeerRecord {
    type V = PeerView;

    open spec fn view(&self) -> PeerView {
        PeerView { id: self.id@, bitfield: self.bitfield@ }
    }
}

/// The bytes of a verified piece and the place in the file where they
/// belong. The caller owes the file this write.
#[derive(Debug, Clone, PartialEq, Eq)]
pub struct PieceWrite {
    pub offset: u64,
    pub data: Vec<u8>,
}

impl View for PieceWrite {
    type V = PieceWriteView;

    open spec fn view(&self) -> PieceWriteView {
        PieceWriteView { offset: self.offset, data: self.data@ }
    }
}

/// The model of a block that may be there.
pub open spec fn block_view(block: Option<Block>) -> Option<BlockView> {
    match block {
        Some(b) => Some(b@),
        None => None,
    }
}

/// The model of a piece that may be there.
pub open spec fn piece_view(piece: Option<Piece>) -> Option<PieceView> {
    match piece {
        Some(p) => Some(p@),
        None => None,
    }
}

/// The model of a write that may be owed.
pub open spec fn write_view(write: Option<PieceWrite>) -> Option<PieceWriteView> {
    match write {
        Some(w) => Some(w@),
        None => None,
    }
}

/// The models of `pieces`, in order.
pub open spec fn pieces_view(pieces: Seq<Piece>) -> Seq<PieceView> {
    pieces.map_values(|p: Piece| p@)
}

/// The scheduler and integrity checker of one download.
pub struct PieceManager {
    torrent: Torrent,
    peers: Vec<PeerRecord>,
    pending_blocks: Vec<PendingRequest>,
    missing_pieces: Vec<Piece>,
    ongoing_pieces: Vec<Piece>,
    have_pieces: Vec<Piece>,
}

impl View for PieceManager {
    type V = ManagerView;

    closed spec fn view(&self) -> ManagerView {
        ManagerView {
            geometry: self.torrent.geometry(),
            peers: self.peers@.map_values(|p: PeerRecord| p@),
            pending: self.pending_blocks@.map_values(|r: PendingRequest| r@),
            missing: pieces_view(self.missing_pieces@),
            ongoing: pieces_view(self.ongoing_pieces@),
            have: pieces_view(self.have_pieces@),
        }
    }
}

impl PieceManager {
    /// Whether the manager is in a state that its operations keep it in.
    pub open spec fn wf(&self) -> bool {
        self@.wf()
    }

    /// A manager for the content of `torrent`: every piece is missing, no
    /// peer is known and no request is under way.
    pub fn new(torrent: Torrent) -> (manager: PieceManager)
        requires
            torrent.geometry().wf(),
        ensures
            manager.wf(),
            manager@.geometry == torrent.geometry(),
            manager@.peers.len() == 0,
            manager@.pending.len() == 0,
            manager@.ongoing.len() == 0,
            manager@.have.len() == 0,
            manager@.missing.len() == torrent.geometry().piece_count(),
            forall|i: int|
                0 <= i < manager@.missing.len() ==> (#[trigger] manager@.missing[i])
                    == torrent.geometry().piece_layout(i),
    {
        let missing = layout_pieces(&torrent);
        let manager = PieceManager {
            torrent,
            peers: Vec::new(),
            pending_blocks: Vec::new(),
            missing_pieces: missing,
            ongoing_pieces: Vec::new(),
            have_pieces: Vec::new(),
        };
        proof {
            let m = manager@;
            reveal(ManagerView::pieces_wf);
            reveal(ManagerView::states_wf);
            reveal(ManagerView::requests_wf);
            reveal(ManagerView::peers_wf);
            assert(m.all_pieces() =~= m.missing);
            assert forall|a: int| 0 <= a < m.all_pieces().len() implies (
            #[trigger] m.all_pieces()[a]).laid_out(m.geometry) by {
                assert(m.missing[a] == m.geometry.piece_layout(a));
            }
            assert forall|k: int| 0 <= k < m.missing.len() implies (
            #[trigger] m.missing[k]).untouched() by {
                assert(m.missing[k] == m.geometry.piece_layout(k));
            }
            assert forall|a: int, b: int| 0 <= a < b < m.all_pieces().len() implies (
            #[trigger] m.all_pieces()[a]).index != (#[trigger] m.all_pieces()[b]).index by {
                assert(m.missing[a] == m.geometry.piece_layout(a));
                assert(m.missing[b] == m.geometry.piece_layout(b));
            }
        }
        manager
    }

    /// The pieces of the content, each cut into blocks, none asked for yet.
    pub fn initiate_pieces(&self) -> (pieces: Vec<Piece>)
        requires
            self.wf(),
        ensures
            pieces@.len() == self@.geometry.piece_count(),
            forall|i: int|
                0 <= i < pieces@.len() ==> (#[trigger] pieces@[i])@
                    == self@.geometry.piece_layout(i),
    {
        layout_pieces(&self.torrent)
    }

    /// Whether every piece has been verified.
    pub fn complete(&self) -> (done: bool)
        requires
            self.wf(),
        ensures
            done == self@.complete(),
    {
        self.have_pieces.len() == self.torrent.pieces.len() / 20
    }

    /// The number of bytes downloaded: the lengths of the verified pieces,
    /// added up. It is never more than the total size of the content, and
    /// is the total size exactly when the download is complete, provided
    /// that the torrent has as many pieces as its total size asks for.
    pub fn bytes_downloaded(&self) -> (bytes: u64)
        requires
            self.wf(),
        ensures
            bytes == self@.downloaded(),
            self@.geometry.consistent() ==> bytes <= self@.geometry.total_size,
            self@.geometry.consistent() ==> (bytes == self@.geometry.total_size
                <==> self@.complete()),
    {
        let count: u64 = (self.torrent.pieces.len() / 20) as u64;
        let full: u64 = self.torrent.piece_length as u64;
        let left: u64 = self.torrent.total_size % full;
        let last: u64 = if left == 0 {
            full
        } else {
            left
        };
        let ghost g = self@.geometry;
        proof {
            lemma_downloaded(self@);
        }
        let mut bytes: u64 = 0;
        let mut k: usize = 0;
        while k < self.have_pieces.len()
            invariant
                k <= self.have_pieces.len(),
                self.have_pieces@.len() <= u32::MAX,
                g == self@.geometry,
                g.wf(),
                count == g.piece_count(),
                full == g.piece_length,
                last == g.last_size(),
                bytes == sizes_of(g, self@.have, k as int),
                bytes <= k * 0xffff_ffff,
            decreases self.have_pieces.len() - k,
        {
            let index = self.have_pieces[k].index as u64;
            let size: u64 = if index + 1 < count {
                full
            } else {
                last
            };
            proof {
                lemma_piece_size(g, index as int);
                assert(self@.have[k as int].index == index);
            }
            bytes = bytes + size;
            k += 1;
        }
        bytes
    }

    /// The number of bytes uploaded, which is none: this client does not
    /// seed.
    pub fn bytes_uploaded(&self) -> (bytes: u64)
        ensures
            bytes == 0,
    {
        0
    }

    /// The position of the peer `peer_id`; the number of peers when it is
    /// not known.
    fn find_peer(&self, peer_id: &String) -> (k: usize)
        ensures
            k == self@.peer_pos(peer_id@),
            k <= self.peers@.len(),
    {
        let mut k: usize = 0;
        while k < self.peers.len()
            invariant
                k <= self.peers.len(),
                forall|j: int| 0 <= j < k ==> (#[trigger] self@.peers[j]).id != peer_id@,
            decreases self.peers.len() - k,
        {
            if self.peers[k].id == *peer_id {
                proof {
                    self@.lemma_peer_pos_is(peer_id@, k as int);
                }
                return k;
            }
            k += 1;
        }
        proof {
            self@.lemma_peer_pos_is(peer_id@, k as int);
        }
        k
    }

    /// Registers the peer `peer_id` with what it holds. A peer that is
    /// known already gets the new bitfield.
    pub fn add_peer(&mut self, peer_id: String, bitfield: Vec<u8>)
        requires
            old(self).wf(),
        ensures
            final(self)@ == old(self)@.with_peer(peer_id@, bitfield@),
            final(self).wf(),
    {
        let k = self.find_peer(&peer_id);
        let record = PeerRecord { id: peer_id, bitfield };
        if k < self.peers.len() {
            self.peers[k] = record;
        } else {
            self.peers.push(record);
        }
        proof {
            assert(self@.peers =~= old(self)@.with_peer(peer_id@, bitfield@).peers);
            lemma_with_peer_wf(old(self)@, peer_id@, bitfield@);
        }
    }

    /// Notes that the peer `peer_id` holds piece `index`. Nothing changes
    /// when the peer is not known or its bitfield has no place for `index`.
    pub fn update_peer(&mut self, peer_id: String, index: u32)
        requires
            old(self).wf(),
        ensures
            final(self)@ == old(self)@.with_have(peer_id@, index),
            final(self).wf(),
    {
        let k = self.find_peer(&peer_id);
        if k < self.peers.len() && (index as usize) < self.peers[k].bitfield.len() {
            self.peers[k].bitfield[index as usize] = 1;
            proof {
                old(self)@.lemma_peer_pos(peer_id@);
                assert(self.peers@[k as int].bitfield@ =~= old(self).peers@[k as int].bitfield@.update(
                    index as int,
                    1u8,
                ));
                assert(self.peers@[k as int].id@ == peer_id@);
                assert(self@.peers =~= old(self)@.with_have(peer_id@, index).peers);
            }
        }
        proof {
            lemma_with_have_wf(old(self)@, peer_id@, index);
        }
    }

    /// Forgets the peer `peer_id`. Nothing changes when it is not known.
    pub fn delete_peer(&mut self, peer_id: String)
        requires
            old(self).wf(),
        ensures
            final(self)@ == old(self)@.without_peer(peer_id@),
            final(self).wf(),
    {
        let k = self.find_peer(&peer_id);
        if k < self.peers.len() {
            self.peers.remove(k);
            proof {
                assert(self@.peers =~= old(self)@.without_peer(peer_id@).peers);
            }
        }
        proof {
            lemma_without_peer_wf(old(self)@, peer_id@);
        }
    }

    /// Whether the peer at position `p` holds piece `index`.
    fn peer_holds(&self, p: usize, index: u64) -> (held: bool)
        requires
            p < self.peers@.len(),
        ensures
            held == holds(self@.peers[p as int].bitfield, index as int),
    {
        let bitfield = &self.peers[p].bitfield;
        if index < bitfield.len() as u64 {
            bitfield[index as usize] != 0
        } else {
            false
        }
    }

    /// The first tier of the scheduler at the time `now`: the first request
    /// that has been unanswered for more than `MAX_PENDING_TIME` and is for
    /// a piece that the peer holds is made again.
    pub fn expired_requests_at(&mut self, peer_id: &String, now: u128) -> (block: Option<Block>)
        requires
            old(self).wf(),
        ensures
            final(self)@ == old(self)@.expired_step(peer_id@, now).0,
            block_view(block) == old(self)@.expired_step(peer_id@, now).1,
            final(self).wf(),
    {
        let p = self.find_peer(peer_id);
        if p >= self.peers.len() {
            return None;
        }
        let ghost bitfield = self@.peers[p as int].bitfield;
        let mut k: usize = 0;
        while k < self.pending_blocks.len()
            invariant
                k <= self.pending_blocks.len(),
                *self == *old(self),
                old(self).wf(),
                p < self.peers@.len(),
                p == self@.peer_pos(peer_id@),
                bitfield == self@.peers[p as int].bitfield,
                forall|j: int| 0 <= j < k ==> !self@.is_expired(bitfield, now, j),
            decreases self.pending_blocks.len() - k,
        {
            let held = self.peer_holds(p, self.pending_blocks[k].block.piece);
            let added = self.pending_blocks[k].added;
            let expired = now > MAX_PENDING_TIME as u128 && added < now - MAX_PENDING_TIME as u128;
            if held && expired {
                proof {
                    assert(self@.is_expired(bitfield, now, k as int));
                    self@.lemma_first_expired_is(bitfield, now, k as int);
                    assert(old(self)@.bitfield_of(peer_id@) == Some(bitfield));
                }
                self.pending_blocks[k].added = now;
                let copy = copy_block(&self.pending_blocks[k].block);
                proof {
                    let after = old(self)@.expired_step(peer_id@, now).0;
                    assert(after.pending == old(self)@.pending.update(
                        k as int,
                        PendingView { block: old(self)@.pending[k as int].block, added: now },
                    ));
                    assert(self@.pending =~= after.pending);
                    lemma_expired_step_wf(old(self)@, peer_id@, now);
                }
                return Some(copy);
            }
            k += 1;
        }
        proof {
            self@.lemma_first_expired_is(bitfield, now, k as int);
        }
        None
    }

    /// The second tier of the scheduler at the time `now`: the next missing
    /// block of the first ongoing piece that the peer holds is asked for.
    pub fn next_ongoing_at(&mut self, peer_id: &String, now: u128) -> (block: Option<Block>)
        requires
            old(self).wf(),
        ensures
            final(self)@ == old(self)@.ongoing_step(peer_id@, now).0,
            block_view(block) == old(self)@.ongoing_step(peer_id@, now).1,
            final(self).wf(),
    {
        proof {
            lemma_ongoing_step_wf(old(self)@, peer_id@, now);
        }
        let p = self.find_peer(peer_id);
        if p >= self.peers.len() {
            return None;
        }
        let ghost bitfield = self@.peers[p as int].bitfield;
        let mut k: usize = 0;
        while k < self.ongoing_pieces.len()
            invariant
                k <= self.ongoing_pieces.len(),
                self@ == old(self)@,
                old(self).wf(),
                p < self.peers@.len(),
                p == self@.peer_pos(peer_id@),
                bitfield == self@.peers[p as int].bitfield,
                forall|j: int| 0 <= j < k ==> !self@.is_workable(bitfield, j),
            decreases self.ongoing_pieces.len() - k,
        {
            let ghost before = self@;
            if self.peer_holds(p, self.ongoing_pieces[k].index as u64) {
                match self.ongoing_pieces[k].next_request() {
                    Some(block) => {
                        proof {
                            assert(before.is_workable(bitfield, k as int));
                            before.lemma_first_workable_is(bitfield, k as int);
                            assert(before.bitfield_of(peer_id@) == Some(bitfield));
                        }
                        let copy = copy_block(&block);
                        self.pending_blocks.push(PendingRequest { block: copy, added: now });
                        proof {
                            let after = before.ongoing_step(peer_id@, now).0;
                            assert(self@.ongoing =~= after.ongoing);
                            assert(self@.pending =~= after.pending);
                            lemma_ongoing_step_wf(old(self)@, peer_id@, now);
                        }
                        return Some(block);
                    },
                    None => {
                        assert(self@.ongoing =~= before.ongoing);
                        assert(!before.is_workable(bitfield, k as int));
                    },
                }
            } else {
                assert(!before.is_workable(bitfield, k as int));
            }
            k += 1;
        }
        proof {
            self@.lemma_first_workable_is(bitfield, k as int);
        }
        None
    }

    /// The number of known peers that hold piece `index`.
    fn count_holders(&self, index: u32) -> (count: usize)
        ensures
            count == self@.holders(index as int),
    {
        let mut count: usize = 0;
        let mut k: usize = 0;
        while k < self.peers.len()
            invariant
                k <= self.peers.len(),
                count <= k,
                count == holders_upto(self@.peers, index as int, k as int),
            decreases self.peers.len() - k,
        {
            if self.peer_holds(k, index as u64) {
                count += 1;
            }
            k += 1;
        }
        count
    }

    /// The third tier of the scheduler, first half: among the missing pieces
    /// that the peer holds, the one that the fewest known peers hold, and of
    /// several such the one with the lowest index, becomes the last ongoing
    /// piece. A copy of it is returned.
    pub fn get_rarest_piece(&mut self, peer_id: &String) -> (piece: Option<Piece>)
        requires
            old(self).wf(),
        ensures
            final(self)@ == old(self)@.rarest_step(peer_id@).0,
            piece_view(piece) == old(self)@.rarest_step(peer_id@).1,
            final(self).wf(),
    {
        proof {
            lemma_rarest_step_wf(old(self)@, peer_id@);
        }
        let p = self.find_peer(peer_id);
        if p >= self.peers.len() {
            return None;
        }
        let ghost bitfield = self@.peers[p as int].bitfield;
        let mut found: bool = false;
        let mut best: usize = 0;
        let mut best_count: usize = 0;
        let mut k: usize = 0;
        while k < self.missing_pieces.len()
            invariant
                k <= self.missing_pieces.len(),
                p < self.peers@.len(),
                bitfield == self@.peers[p as int].bitfield,
                !found ==> self@.rarest_upto(bitfield, k as int) == -1,
                found ==> best < k && self@.rarest_upto(bitfield, k as int) == best && best_count
                    == self@.holders(self@.missing[best as int].index as int),
            decreases self.missing_pieces.len() - k,
        {
            let index = self.missing_pieces[k].index;
            if self.peer_holds(p, index as u64) {
                let count = self.count_holders(index);
                if !found || count < best_count || (count == best_count && index
                    < self.missing_pieces[best].index) {
                    found = true;
                    best = k;
                    best_count = count;
                }
            }
            k += 1;
        }
        if !found {
            return None;
        }
        let piece = self.missing_pieces.remove(best);
        let copy = copy_piece(&piece);
        self.ongoing_pieces.push(piece);
        proof {
            let after = old(self)@.rarest_step(peer_id@).0;
            assert(old(self)@.bitfield_of(peer_id@) == Some(bitfield));
            assert(self@.missing =~= after.missing);
            assert(self@.ongoing =~= after.ongoing);
        }
        Some(copy)
    }

    /// The first missing piece that the peer holds becomes the last ongoing
    /// piece, and its first block is asked for at the time `now`.
    pub fn next_missing_at(&mut self, peer_id: &String, now: u128) -> (block: Option<Block>)
        requires
            old(self).wf(),
        ensures
            final(self)@ == old(self)@.missing_step(peer_id@, now).0,
            block_view(block) == old(self)@.missing_step(peer_id@, now).1,
            final(self).wf(),
    {
        proof {
            lemma_missing_step_wf(old(self)@, peer_id@, now);
        }
        let p = self.find_peer(peer_id);
        if p >= self.peers.len() {
            return None;
        }
        let ghost bitfield = self@.peers[p as int].bitfield;
        let mut k: usize = 0;
        while k < self.missing_pieces.len()
            invariant
                k <= self.missing_pieces.len(),
                *self == *old(self),
                old(self).wf(),
                old(self)@.missing_step(peer_id@, now).0.wf(),
                p < self.peers@.len(),
                p == self@.peer_pos(peer_id@),
                bitfield == self@.peers[p as int].bitfield,
                forall|j: int|
                    0 <= j < k ==> !holds(bitfield, (#[trigger] self@.missing[j]).index as int),
            decreases self.missing_pieces.len() - k,
        {
            if self.peer_holds(p, self.missing_pieces[k].index as u64) {
                proof {
                    self@.lemma_first_held_missing_is(bitfield, k as int);
                    assert(self@.bitfield_of(peer_id@) == Some(bitfield));
                }
                let mut piece = copy_piece(&self.missing_pieces[k]);
                match piece.next_request() {
                    None => {
                        return None;
                    },
                    Some(block) => {
                        self.missing_pieces.remove(k);
                        self.ongoing_pieces.push(piece);
                        let copy = copy_block(&block);
                        self.pending_blocks.push(PendingRequest { block: copy, added: now });
                        proof {
                            let after = old(self)@.missing_step(peer_id@, now).0;
                            assert(self@.missing =~= after.missing);
                            assert(self@.ongoing =~= after.ongoing);
                            assert(self@.pending =~= after.pending);
                        }
                        return Some(block);
                    },
                }
            }
            k += 1;
        }
        proof {
            self@.lemma_first_held_missing_is(bitfield, k as int);
        }
        None
    }

    /// The scheduler at the time `now`: an expired request that the peer can
    /// serve; else the next block of an ongoing piece that the peer holds;
    /// else the first block of the rarest missing piece that the peer holds;
    /// else nothing.
    pub fn next_request_at(&mut self, peer_id: &String, now: u128) -> (block: Option<Block>)
        requires
            old(self).wf(),
        ensures
            final(self)@ == old(self)@.request_step(peer_id@, now).0,
            block_view(block) == old(self)@.request_step(peer_id@, now).1,
            final(self).wf(),
    {
        proof {
            lemma_request_step_wf(old(self)@, peer_id@, now);
            lemma_ongoing_step_wf(old(self)@, peer_id@, now);
            lemma_rarest_step_wf(old(self)@, peer_id@);
        }
        let expired = self.expired_requests_at(peer_id, now);
        if expired.is_some() {
            return expired;
        }
        let ongoing = self.next_ongoing_at(peer_id, now);
        if ongoing.is_some() {
            return ongoing;
        }
        match self.get_rarest_piece(peer_id) {
            Some(_) => self.next_ongoing_at(peer_id, now),
            None => None,
        }
    }

    /// The position of the first request for the block of `piece` at
    /// `offset`; the number of requests when there is none.
    fn find_pending(&self, piece: u64, offset: u64) -> (k: usize)
        ensures
            k == self@.pending_pos(piece, offset),
            k <= self.pending_blocks@.len(),
    {
        let mut k: usize = 0;
        while k < self.pending_blocks.len()
            invariant
                k <= self.pending_blocks.len(),
                forall|j: int|
                    0 <= j < k ==> !((#[trigger] self@.pending[j]).block.piece == piece
                        && self@.pending[j].block.offset == offset),
            decreases self.pending_blocks.len() - k,
        {
            if self.pending_blocks[k].block.piece == piece && self.pending_blocks[k].block.offset
                == offset {
                proof {
                    self@.lemma_pending_pos_is(piece, offset, k as int);
                }
                return k;
            }
            k += 1;
        }
        proof {
            self@.lemma_pending_pos_is(piece, offset, k as int);
        }
        k
    }

    /// The position of the first ongoing piece with index `piece`; the
    /// number of ongoing pieces when there is none.
    fn find_ongoing(&self, piece: u64) -> (k: usize)
        ensures
            k == self@.ongoing_pos(piece),
            k <= self.ongoing_pieces@.len(),
    {
        let mut k: usize = 0;
        while k < self.ongoing_pieces.len()
            invariant
                k <= self.ongoing_pieces.len(),
                forall|j: int| 0 <= j < k ==> (#[trigger] self@.ongoing[j]).index as u64 != piece,
            decreases self.ongoing_pieces.len() - k,
        {
            if self.ongoing_pieces[k].index as u64 == piece {
                proof {
                    self@.lemma_ongoing_pos_is(piece, k as int);
                }
                return k;
            }
            k += 1;
        }
        proof {
            self@.lemma_ongoing_pos_is(piece, k as int);
        }
        k
    }

    /// Takes in `data` that has arrived for the block of piece
    /// `piece_index` at `block_offset`.
    ///
    /// The data is taken in when the piece is ongoing, has a block at that
    /// offset, has not retrieved it before, and the data has the length of
    /// the block; other data is discarded and changes nothing. The request
    /// for a block that is taken in is dropped. When the data completes the
    /// piece, the piece is checked against its hash: a piece that matches
    /// moves to the verified ones and its bytes are returned with the place
    /// in the file where the caller has to write them; a piece that does
    /// not match is cleared and stays ongoing.
    pub fn block_received(
        &mut self,
        peer_id: String,
        piece_index: u64,
        block_offset: u64,
        data: Vec<u8>,
    ) -> (write: Option<PieceWrite>)
        requires
            old(self).wf(),
        ensures
            final(self)@ == old(self)@.received_step(piece_index, block_offset, data@).0,
            write_view(write) == old(self)@.received_step(piece_index, block_offset, data@).1,
            final(self).wf(),
    {
        let ghost before = self@;
        proof {
            lemma_received_step_wf(before, piece_index, block_offset, data@);
        }
        let k = self.find_ongoing(piece_index);
        if k >= self.ongoing_pieces.len() {
            return None;
        }
        let b = self.ongoing_pieces[k].position_of(block_offset);
        if b >= self.ongoing_pieces[k].blocks.len() {
            return None;
        }
        if self.ongoing_pieces[k].blocks[b].status == Status::Retrieved {
            return None;
        }
        if self.ongoing_pieces[k].blocks[b].length != data.len() as u64 {
            return None;
        }
        assert(before.accepts(piece_index, block_offset, data@.len() as int));
        let e = self.find_pending(piece_index, block_offset);
        if e < self.pending_blocks.len() {
            self.pending_blocks.remove(e);
        }
        assert(self@.pending =~= before.answered(piece_index, block_offset).pending);
        assert(self@ == before.answered(piece_index, block_offset));
        let ghost filled = before.ongoing[k as int].received(block_offset, data@);
        self.ongoing_pieces[k].blocks[b].status = Status::Retrieved;
        self.ongoing_pieces[k].blocks[b].data = Some(data);
        assert(self.ongoing_pieces@[k as int]@.blocks =~= filled.blocks);
        assert(self@.ongoing =~= before.ongoing.update(k as int, filled));
        if !self.ongoing_pieces[k].is_complete() {
            return None;
        }
        match self.ongoing_pieces[k].verified_payload() {
            Some(bytes) => {
                let mut piece = self.ongoing_pieces.remove(k);
                assert(piece.index * self.torrent.piece_length <= u64::MAX) by (nonlinear_arith)
                    requires
                        0 <= piece.index <= u32::MAX,
                        0 <= self.torrent.piece_length <= u32::MAX,
                ;
                let offset = (piece.index as u64) * (self.torrent.piece_length as u64);
                piece.seal();
                self.have_pieces.push(piece);
                proof {
                    let after = before.received_step(piece_index, block_offset, data@).0;
                    assert(self@.ongoing =~= after.ongoing);
                    assert(self@.have =~= after.have);
                }
                Some(PieceWrite { offset, data: bytes })
            },
            None => {
                self.ongoing_pieces[k].reset();
                proof {
                    let after = before.received_step(piece_index, block_offset, data@).0;
                    assert(self@.ongoing =~= after.ongoing);
                }
                None
            },
        }
    }

    /// The bytes of `blocks`, one after the other, to be written to the file
    /// at `offset`; nothing when a block holds no data.
    pub fn write_piece(&self, offset: u64, blocks: &[Block]) -> (write: Option<PieceWrite>)
        ensures
            match write {
                Some(w) => w.offset == offset && super::payload_upto(
                    blocks@.map_values(|b: Block| b@),
                    blocks@.len() as int,
                ) == Some(w.data@),
                None => super::payload_upto(
                    blocks@.map_values(|b: Block| b@),
                    blocks@.len() as int,
                ) is None,
            },
    {
        match concat_data(blocks) {
            Some(data) => Some(PieceWrite { offset, data }),
            None => None,
        }
    }

    /// The scheduler, at the time that the system clock shows: what
    /// `next_request_at` gives for that time.
    pub fn next_request(&mut self, peer_id: &String) -> (block: Option<Block>)
        requires
            old(self).wf(),
        ensures
            final(self).wf(),
            exists|now: u128| #[trigger]
                old(self)@.request_step(peer_id@, now) == (final(self)@, block_view(block)),
    {
        let now = now_millis();
        let block = self.next_request_at(peer_id, now);
        assert(old(self)@.request_step(peer_id@, now) == (self@, block_view(block)));
        block
    }

    /// The first tier of the scheduler, at the time that the system clock
    /// shows: what `expired_requests_at` gives for that time.
    pub fn expired_requests(&mut self, peer_id: &String) -> (block: Option<Block>)
        requires
            old(self).wf(),
        ensures
            final(self).wf(),
            exists|now: u128| #[trigger]
                old(self)@.expired_step(peer_id@, now) == (final(self)@, block_view(block)),
    {
        let now = now_millis();
        let block = self.expired_requests_at(peer_id, now);
        assert(old(self)@.expired_step(peer_id@, now) == (self@, block_view(block)));
        block
    }

    /// The second tier of the scheduler, at the time that the system clock
    /// shows: what `next_ongoing_at` gives for that time.
    pub fn next_ongoing(&mut self, peer_id: &String) -> (block: Option<Block>)
        requires
            old(self).wf(),
        ensures
            final(self).wf(),
            exists|now: u128| #[trigger]
                old(self)@.ongoing_step(peer_id@, now) == (final(self)@, block_view(block)),
    {
        let now = now_millis();
        let block = self.next_ongoing_at(peer_id, now);
        assert(old(self)@.ongoing_step(peer_id@, now) == (self@, block_view(block)));
        block
    }

    /// Starts the first missing piece that the peer holds, at the time that
    /// the system clock shows: what `next_missing_at` gives for that time.
    pub fn next_missing(&mut self, peer_id: &String) -> (block: Option<Block>)
        requires
            old(self).wf(),
        ensures
            final(self).wf(),
            exists|now: u128| #[trigger]
                old(self)@.missing_step(peer_id@, now) == (final(self)@, block_view(block)),
    {
        let now = now_millis();
        let block = self.next_missing_at(peer_id, now);
        assert(old(self)@.missing_step(peer_id@, now) == (self@, block_view(block)));
        block
    }

    /// The number of pieces of the content.
    pub fn piece_count(&self) -> (count: usize)
        ensures
            count == self@.geometry.piece_count(),
    {
        self.torrent.pieces.len() / 20
    }

    /// Whether the peer `peer_id` is known and holds a piece that is still
    /// needed: one that is missing or ongoing.
    pub fn needs_from(&self, peer_id: &String) -> (wanted: bool)
        ensures
            wanted == self@.wants(peer_id@),
    {
        let p = self.find_peer(peer_id);
        if p >= self.peers.len() {
            return false;
        }
        let ghost bitfield = self@.peers[p as int].bitfield;
        let mut k: usize = 0;
        while k < self.missing_pieces.len()
            invariant
                k <= self.missing_pieces.len(),
                p < self.peers@.len(),
                p == self@.peer_pos(peer_id@),
                bitfield == self@.peers[p as int].bitfield,
                forall|j: int|
                    0 <= j < k ==> !holds(bitfield, (#[trigger] self@.missing[j]).index as int),
            decreases self.missing_pieces.len() - k,
        {
            if self.peer_holds(p, self.missing_pieces[k].index as u64) {
                assert(holds(bitfield, self@.missing[k as int].index as int));
                assert(self@.bitfield_of(peer_id@) == Some(bitfield));
                return true;
            }
            k += 1;
        }
        let mut k: usize = 0;
        while k < self.ongoing_pieces.len()
            invariant
                k <= self.ongoing_pieces.len(),
                p < self.peers@.len(),
                p == self@.peer_pos(peer_id@),
                bitfield == self@.peers[p as int].bitfield,
                forall|j: int|
                    0 <= j < self@.missing.len() ==> !holds(
                        bitfield,
                        (#[trigger] self@.missing[j]).index as int,
                    ),
                forall|j: int|
                    0 <= j < k ==> !holds(bitfield, (#[trigger] self@.ongoing[j]).index as int),
            decreases self.ongoing_pieces.len() - k,
        {
            if self.peer_holds(p, self.ongoing_pieces[k].index as u64) {
                assert(holds(bitfield, self@.ongoing[k as int].index as int));
                assert(self@.bitfield_of(peer_id@) == Some(bitfield));
                return true;
            }
            k += 1;
        }
        false
    }
}

} // verus!
