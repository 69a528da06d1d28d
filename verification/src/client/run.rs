//! Whole runs of operations: every piece is verified at most once and
//! written exactly when it is verified, and what is written is what was
//! first taken in for each block.

use super::account::lemma_payload_length;
use super::laws::{lemma_all_pieces, lemma_laid_out_block, lemma_ongoing_pieces,
    lemma_rarest_upto, lemma_received_step_wf, lemma_request_step_wf, lemma_taken_place,
    lemma_with_have_wf, lemma_with_peer_wf, lemma_without_peer_wf};
use super::layout::{block_count, block_layout, lemma_piece_size};
use super::model::{ManagerView, PieceWriteView};
use super::progress::{block_data, expected, genuine, lemma_payload_expected};
use super::Status;
use vstd::prelude::*;

verus! {

/// One operation on the piece manager.
pub enum Event {
    /// A peer is registered with what it holds.
    Register { id: Seq<char>, bitfield: Seq<u8> },
    /// A peer says that it holds one more piece.
    Have { id: Seq<char>, index: u32 },
    /// A peer has gone.
    Gone { id: Seq<char> },
    /// A peer asks for the next block at some time.
    Ask { id: Seq<char>, now: u128 },
    /// Data arrives for a block.
    Deliver { piece: u64, offset: u64, data: Seq<u8> },
}

impl ManagerView {
    /// What one operation does: the new state, and the bytes to write when
    /// the operation has verified a piece.
    pub open spec fn step(self, event: Event) -> (ManagerView, Option<PieceWriteView>) {
        match event {
            Event::Register { id, bitfield } => (self.with_peer(id, bitfield), None),
            Event::Have { id, index } => (self.with_have(id, index), None),
            Event::Gone { id } => (self.without_peer(id), None),
            Event::Ask { id, now } => (self.request_step(id, now).0, None),
            Event::Deliver { piece, offset, data } => self.received_step(piece, offset, data),
        }
    }

    /// The state after the first `n` of `events`.
    pub open spec fn after(self, events: Seq<Event>, n: int) -> ManagerView
        decreases n,
    {
        if n <= 0 {
            self
        } else {
            self.after(events, n - 1).step(events[n - 1]).0
        }
    }

    /// The writes that the first `n` of `events` ask for, in order.
    pub open spec fn writes(self, events: Seq<Event>, n: int) -> Seq<PieceWriteView>
        decreases n,
    {
        if n <= 0 {
            Seq::empty()
        } else {
            match self.after(events, n - 1).step(events[n - 1]).1 {
                Some(write) => self.writes(events, n - 1).push(write),
                None => self.writes(events, n - 1),
            }
        }
    }

    /// Whether piece `i` has been verified.
    pub open spec fn verified(self, i: int) -> bool {
        exists|k: int| 0 <= k < self.have.len() && (#[trigger] self.have[k]).index == i
    }

    /// The place of piece `i` in the file.
    pub open spec fn place(self, i: int) -> int {
        i * self.geometry.piece_length
    }

    /// Whether every retrieved block of the ongoing piece `i` holds the
    /// bytes that `data` gives for it.
    pub open spec fn stores_piece(self, i: int, data: spec_fn(u64, u64) -> Seq<u8>) -> bool {
        forall|k: int, b: int|
            0 <= k < self.ongoing.len() && 0 <= b < self.ongoing[k].blocks.len()
                && self.ongoing[k].index == i && (#[trigger] self.ongoing[k].blocks[b]).status
                == Status::Retrieved ==> self.ongoing[k].blocks[b].data == Some(
                data(self.ongoing[k].blocks[b].piece, self.ongoing[k].blocks[b].offset),
            )
    }
}

/// The number of the first `n` writes that are made at `place`.
pub open spec fn writes_at(writes: Seq<PieceWriteView>, place: int, n: int) -> nat
    decreases n,
{
    if n <= 0 {
        0
    } else if writes[n - 1].offset == place {
        writes_at(writes, place, n - 1) + 1
    } else {
        writes_at(writes, place, n - 1)
    }
}

/// Whether, in the first `n` of `events`, whatever is taken in for piece
/// `i` is what `data` gives for its block: the first arrival for each block
/// is genuine, and later arrivals, which are discarded, may be anything.
pub open spec fn first_arrivals_genuine(
    m: ManagerView,
    events: Seq<Event>,
    n: int,
    i: int,
    data: spec_fn(u64, u64) -> Seq<u8>,
) -> bool {
    forall|t: int|
        0 <= t < n ==> (#[trigger] events[t] matches Event::Deliver { piece, offset, data: bytes }
            ==> piece == i && m.after(events, t).accepts(piece, offset, bytes.len() as int)
            ==> bytes == data(piece, offset))
}

/// Every operation keeps the state valid.
pub proof fn lemma_step_wf(m: ManagerView, event: Event)
    requires
        m.wf(),
    ensures
        m.step(event).0.wf(),
{
    match event {
        Event::Register { id, bitfield } => lemma_with_peer_wf(m, id, bitfield),
        Event::Have { id, index } => lemma_with_have_wf(m, id, index),
        Event::Gone { id } => lemma_without_peer_wf(m, id),
        Event::Ask { id, now } => lemma_request_step_wf(m, id, now),
        Event::Deliver { piece, offset, data } => lemma_received_step_wf(m, piece, offset, data),
    }
}

/// Every run of operations keeps the state valid and the geometry as it
/// is.
pub proof fn lemma_after_wf(m: ManagerView, events: Seq<Event>, n: int)
    requires
        m.wf(),
        n <= events.len(),
    ensures
        m.after(events, n).wf(),
        m.after(events, n).geometry == m.geometry,
    decreases n,
{
    if n > 0 {
        lemma_after_wf(m, events, n - 1);
        let before = m.after(events, n - 1);
        lemma_step_wf(before, events[n - 1]);
        lemma_ask_keeps_have(before, events[n - 1]);
    }
}

/// An operation that is no arrival of data leaves the verified pieces and
/// the geometry as they are; so does a request.
pub proof fn lemma_ask_keeps_have(m: ManagerView, event: Event)
    requires
        m.wf(),
    ensures
        m.step(event).0.geometry == m.geometry,
        !(event is Deliver) ==> m.step(event).0.have == m.have,
{
    match event {
        Event::Ask { id, now } => {
            let started = m.rarest_step(id).0;
            assert(started.have == m.have);
            assert(started.geometry == m.geometry);
        },
        _ => {},
    }
}

/// An ongoing piece has not been verified.
pub proof fn lemma_ongoing_not_verified(m: ManagerView, k: int)
    requires
        m.wf(),
        0 <= k < m.ongoing.len(),
    ensures
        !m.verified(m.ongoing[k].index as int),
{
    reveal(ManagerView::pieces_wf);
    lemma_all_pieces(m);
    let base = m.missing.len() as int;
    let top = base + m.ongoing.len();
    assert(m.all_pieces()[base + k] == m.ongoing[k]);
    assert forall|h: int| 0 <= h < m.have.len() implies (#[trigger] m.have[h]).index
        != m.ongoing[k].index by {
        assert(m.all_pieces()[top + h] == m.have[h]);
        assert(m.all_pieces()[base + k].index != m.all_pieces()[top + h].index);
    }
}

/// A verified piece is neither missing nor ongoing, and stands among the
/// verified pieces once.
pub proof fn lemma_verified_is_settled(m: ManagerView, i: int)
    requires
        m.wf(),
        m.verified(i),
    ensures
        forall|k: int| 0 <= k < m.missing.len() ==> (#[trigger] m.missing[k]).index != i,
        forall|k: int| 0 <= k < m.ongoing.len() ==> (#[trigger] m.ongoing[k]).index != i,
        forall|a: int, b: int|
            0 <= a < m.have.len() && 0 <= b < m.have.len() && (#[trigger] m.have[a]).index == i
                && (#[trigger] m.have[b]).index == i ==> a == b,
{
    reveal(ManagerView::pieces_wf);
    lemma_all_pieces(m);
    let base = m.missing.len() as int;
    let top = base + m.ongoing.len();
    let h = choose|h: int| 0 <= h < m.have.len() && (#[trigger] m.have[h]).index == i;
    assert(m.all_pieces()[top + h] == m.have[h]);
    assert forall|k: int| 0 <= k < m.missing.len() implies (#[trigger] m.missing[k]).index
        != i by {
        assert(m.all_pieces()[k] == m.missing[k]);
        assert(m.all_pieces()[k].index != m.all_pieces()[top + h].index);
    }
    assert forall|k: int| 0 <= k < m.ongoing.len() implies (#[trigger] m.ongoing[k]).index
        != i by {
        lemma_ongoing_not_verified(m, k);
    }
    assert forall|a: int, b: int|
        0 <= a < m.have.len() && 0 <= b < m.have.len() && (#[trigger] m.have[a]).index == i && (
        #[trigger] m.have[b]).index == i implies a == b by {
        assert(m.all_pieces()[top + a] == m.have[a]);
        assert(m.all_pieces()[top + b] == m.have[b]);
        if a < b {
            assert(m.all_pieces()[top + a].index != m.all_pieces()[top + b].index);
        } else if b < a {
            assert(m.all_pieces()[top + b].index != m.all_pieces()[top + a].index);
        }
    }
}

/// What one operation does to the verified pieces: a verified piece stays
/// verified and is not written again; a piece that was not verified is
/// verified afterwards exactly when the operation asks for a write at its
/// place in the file.
pub proof fn lemma_step_verifies(m: ManagerView, event: Event, i: int)
    requires
        m.wf(),
        0 <= i < m.geometry.piece_count(),
    ensures
        m.verified(i) ==> m.step(event).0.verified(i),
        m.verified(i) ==> !(m.step(event).1 matches Some(w) && w.offset == m.place(i)),
        !m.verified(i) ==> (m.step(event).0.verified(i) <==> (m.step(event).1 matches Some(w)
            && w.offset == m.place(i))),
{
    lemma_ask_keeps_have(m, event);
    let after = m.step(event).0;
    match event {
        Event::Deliver { piece, offset, data } => {
            if m.accepts(piece, offset, data.len() as int) {
                lemma_taken_place(m, piece, offset, data.len() as int);
                let k = m.ongoing_pos(piece);
                let filled = m.ongoing[k].received(offset, data);
                if filled.is_complete() && filled.hash_matches() {
                    let j = filled.index as int;
                    let length = m.geometry.piece_length as int;
                    lemma_ongoing_not_verified(m, k);
                    assert(after.have == m.have.push(filled.sealed()));
                    assert(after.have[m.have.len() as int].index == j);
                    assert(0 <= j * length <= u64::MAX && (j * length == i * length <==> j == i))
                        by (nonlinear_arith)
                        requires
                            0 <= j <= u32::MAX,
                            0 <= i <= u32::MAX,
                            0 < length <= u32::MAX,
                    ;
                    if m.verified(i) {
                        let h = choose|h: int|
                            0 <= h < m.have.len() && (#[trigger] m.have[h]).index == i;
                        assert(after.have[h] == m.have[h]);
                    }
                    if after.verified(i) && !m.verified(i) {
                        let h = choose|h: int|
                            0 <= h < after.have.len() && (#[trigger] after.have[h]).index == i;
                        if h < m.have.len() {
                            assert(after.have[h] == m.have[h]);
                        }
                    }
                } else {
                    assert(after.have == m.have);
                }
            }
        },
        _ => {},
    }
}

/// Over any run of operations, a verified piece stays verified, and the
/// writes at the place of a piece are exactly one when the run has
/// verified the piece and none otherwise: no piece is verified or written
/// twice, whatever arrives again.
pub proof fn lemma_one_write(m: ManagerView, events: Seq<Event>, n: int, i: int)
    requires
        m.wf(),
        0 <= n <= events.len(),
        0 <= i < m.geometry.piece_count(),
    ensures
        m.verified(i) ==> m.after(events, n).verified(i),
        writes_at(m.writes(events, n), m.place(i), m.writes(events, n).len() as int) == if m.after(
            events,
            n,
        ).verified(i) && !m.verified(i) {
            1nat
        } else {
            0nat
        },
    decreases n,
{
    if n > 0 {
        lemma_one_write(m, events, n - 1, i);
        lemma_after_wf(m, events, n - 1);
        let before = m.after(events, n - 1);
        lemma_step_verifies(before, events[n - 1], i);
        let earlier = m.writes(events, n - 1);
        match before.step(events[n - 1]).1 {
            Some(write) => {
                let all = earlier.push(write);
                lemma_writes_at_same(all, earlier, m.place(i), earlier.len() as int);
            },
            None => {},
        }
    }
}

/// Lists of writes that agree on their first `n` writes have as many of
/// these at `place`.
pub proof fn lemma_writes_at_same(
    a: Seq<PieceWriteView>,
    b: Seq<PieceWriteView>,
    place: int,
    n: int,
)
    requires
        0 <= n <= a.len(),
        n <= b.len(),
        forall|k: int| 0 <= k < n ==> a[k] == b[k],
    ensures
        writes_at(a, place, n) == writes_at(b, place, n),
    decreases n,
{
    if n > 0 {
        lemma_writes_at_same(a, b, place, n - 1);
    }
}

/// Asking for a block of an ongoing piece leaves what has been retrieved
/// of piece `i` as it is.
proof fn lemma_asked_keeps(
    m: ManagerView,
    k: int,
    now: u128,
    i: int,
    data: spec_fn(u64, u64) -> Seq<u8>,
)
    requires
        0 <= k < m.ongoing.len(),
        m.ongoing[k].has_missing(),
        m.stores_piece(i, data),
    ensures
        m.asked(k, now).stores_piece(i, data),
{
    let after = m.asked(k, now);
    let piece = m.ongoing[k];
    piece.lemma_first_missing();
    let b = piece.first_missing();
    assert forall|j: int, n: int|
        0 <= j < after.ongoing.len() && 0 <= n < after.ongoing[j].blocks.len()
            && after.ongoing[j].index == i && (#[trigger] after.ongoing[j].blocks[n]).status
            == Status::Retrieved implies after.ongoing[j].blocks[n].data == Some(
        data(after.ongoing[j].blocks[n].piece, after.ongoing[j].blocks[n].offset),
    ) by {
        if j == k {
            assert(n != b);
        }
        assert(after.ongoing[j].blocks[n] == m.ongoing[j].blocks[n]);
    }
}

/// Starting a missing piece leaves what has been retrieved of piece `i` as
/// it is: of the piece that is started nothing has been retrieved.
proof fn lemma_started_keeps(m: ManagerView, k: int, i: int, data: spec_fn(u64, u64) -> Seq<u8>)
    requires
        m.wf(),
        0 <= k < m.missing.len(),
        m.stores_piece(i, data),
    ensures
        m.started(k).stores_piece(i, data),
{
    let after = m.started(k);
    assert(m.missing[k].untouched()) by {
        reveal(ManagerView::states_wf);
    }
    assert forall|j: int, n: int|
        0 <= j < after.ongoing.len() && 0 <= n < after.ongoing[j].blocks.len()
            && after.ongoing[j].index == i && (#[trigger] after.ongoing[j].blocks[n]).status
            == Status::Retrieved implies after.ongoing[j].blocks[n].data == Some(
        data(after.ongoing[j].blocks[n].piece, after.ongoing[j].blocks[n].offset),
    ) by {
        if j < m.ongoing.len() {
            assert(after.ongoing[j].blocks[n] == m.ongoing[j].blocks[n]);
        } else {
            assert(after.ongoing[j] == m.missing[k]);
        }
    }
}

/// A request leaves what has been retrieved of piece `i` as it is.
proof fn lemma_ask_keeps(
    m: ManagerView,
    id: Seq<char>,
    now: u128,
    i: int,
    data: spec_fn(u64, u64) -> Seq<u8>,
)
    requires
        m.wf(),
        m.stores_piece(i, data),
    ensures
        m.request_step(id, now).0.stores_piece(i, data),
{
    if m.bitfield_of(id) is Some {
        let bitfield = m.bitfield_of(id)->0;
        let first = m.expired_step(id, now);
        let second = m.ongoing_step(id, now);
        let third = m.rarest_step(id);
        assert(first.0.ongoing == m.ongoing);
        m.lemma_first_workable(bitfield);
        if m.first_workable(bitfield) < m.ongoing.len() {
            lemma_asked_keeps(m, m.first_workable(bitfield), now, i, data);
        }
        lemma_rarest_upto(m, bitfield, m.missing.len() as int);
        let k = m.rarest(bitfield);
        if k >= 0 {
            lemma_started_keeps(m, k, i, data);
            let started = m.started(k);
            assert(started.bitfield_of(id) == m.bitfield_of(id));
            started.lemma_first_workable(bitfield);
            if started.first_workable(bitfield) < started.ongoing.len() {
                lemma_asked_keeps(started, started.first_workable(bitfield), now, i, data);
            }
        }
    }
}

/// The arrival of data, genuine where it is taken in for piece `i`, leaves
/// what has been retrieved of piece `i` genuine; and when it asks for a
/// write at the place of piece `i`, the bytes to write are those that
/// `data` gives for the blocks of the piece, one after the other, as many
/// as the piece has.
proof fn lemma_deliver_keeps(
    m: ManagerView,
    piece: u64,
    offset: u64,
    bytes: Seq<u8>,
    i: int,
    data: spec_fn(u64, u64) -> Seq<u8>,
)
    requires
        m.wf(),
        0 <= i < m.geometry.piece_count(),
        m.stores_piece(i, data),
        piece == i && m.accepts(piece, offset, bytes.len() as int) ==> bytes == data(
            piece,
            offset,
        ),
    ensures
        m.received_step(piece, offset, bytes).0.stores_piece(i, data),
        m.received_step(piece, offset, bytes).1 matches Some(w) ==> (w.offset == m.place(i)
            ==> w.data == expected(data, i, block_count(m.geometry.piece_size(i)))
            && w.data.len() == m.geometry.piece_size(i)),
{
    let after = m.received_step(piece, offset, bytes).0;
    if m.accepts(piece, offset, bytes.len() as int) {
        lemma_taken_place(m, piece, offset, bytes.len() as int);
        let k = m.ongoing_pos(piece);
        m.lemma_ongoing_pos(piece);
        let target = m.ongoing[k];
        let b = target.find_offset(offset);
        target.lemma_find_offset(offset);
        let filled = target.received(offset, bytes);
        let put = target.blocks[b].with(Status::Retrieved, Some(bytes));
        assert(filled.blocks == target.blocks.update(b, put));
        lemma_ongoing_pieces(m);
        lemma_laid_out_block(target, m.geometry, b);
        assert(target.in_progress()) by {
            reveal(ManagerView::states_wf);
        }
        // what the filled piece holds, when it is piece `i`
        assert(filled.index == i ==> forall|n: int|
            0 <= n < filled.blocks.len() && (#[trigger] filled.blocks[n]).status
                == Status::Retrieved ==> filled.blocks[n].data == Some(
                data(filled.blocks[n].piece, filled.blocks[n].offset),
            )) by {
            if filled.index == i {
                assert forall|n: int|
                    0 <= n < filled.blocks.len() && (#[trigger] filled.blocks[n]).status
                        == Status::Retrieved implies filled.blocks[n].data == Some(
                    data(filled.blocks[n].piece, filled.blocks[n].offset),
                ) by {
                    if n != b {
                        assert(filled.blocks[n] == m.ongoing[k].blocks[n]);
                    }
                }
            }
        }
        if filled.is_complete() && filled.hash_matches() {
            assert(after.ongoing == m.ongoing.remove(k));
            assert forall|j: int, n: int|
                0 <= j < after.ongoing.len() && 0 <= n < after.ongoing[j].blocks.len()
                    && after.ongoing[j].index == i && (
                #[trigger] after.ongoing[j].blocks[n]).status
                    == Status::Retrieved implies after.ongoing[j].blocks[n].data == Some(
                data(after.ongoing[j].blocks[n].piece, after.ongoing[j].blocks[n].offset),
            ) by {
                if j < k {
                    assert(after.ongoing[j].blocks[n] == m.ongoing[j].blocks[n]);
                } else {
                    assert(after.ongoing[j].blocks[n] == m.ongoing[j + 1].blocks[n]);
                }
            }
            let j = filled.index as int;
            let length = m.geometry.piece_length as int;
            assert(0 <= j * length <= u64::MAX && (j * length == i * length <==> j == i))
                by (nonlinear_arith)
                requires
                    0 <= j <= u32::MAX,
                    0 <= i <= u32::MAX,
                    0 < length <= u32::MAX,
            ;
            if j == i {
                assert(filled.laid_out(m.geometry)) by {
                    assert forall|n: int| 0 <= n < filled.blocks.len() implies (
                    #[trigger] filled.blocks[n]).with(Status::Missing, None)
                        == target.blocks[n].with(Status::Missing, None) by {}
                }
                assert forall|n: int| 0 <= n < filled.blocks.len() implies (
                #[trigger] filled.blocks[n]).data == Some(
                    data(filled.blocks[n].piece, filled.blocks[n].offset),
                ) by {
                    assert(filled.blocks[n].status == Status::Retrieved);
                }
                lemma_payload_expected(filled, m.geometry, data, filled.blocks.len() as int);
                assert forall|n: int| 0 <= n < filled.blocks.len() implies (
                #[trigger] filled.blocks[n]).data is Some && filled.blocks[n].data->0.len()
                    == filled.blocks[n].length by {
                    if n != b {
                        assert(filled.blocks[n] == target.blocks[n]);
                        assert(filled.blocks[n].status == Status::Retrieved);
                    }
                }
                lemma_payload_length(filled, m.geometry, filled.blocks.len() as int);
            }
        } else {
            let kept = if filled.is_complete() {
                filled.cleared()
            } else {
                filled
            };
            assert(after.ongoing == m.ongoing.update(k, kept));
            assert forall|j: int, n: int|
                0 <= j < after.ongoing.len() && 0 <= n < after.ongoing[j].blocks.len()
                    && after.ongoing[j].index == i && (
                #[trigger] after.ongoing[j].blocks[n]).status
                    == Status::Retrieved implies after.ongoing[j].blocks[n].data == Some(
                data(after.ongoing[j].blocks[n].piece, after.ongoing[j].blocks[n].offset),
            ) by {
                if j != k {
                    assert(after.ongoing[j].blocks[n] == m.ongoing[j].blocks[n]);
                }
            }
        }
    }
}

/// Over any run of operations in which the first arrival for each block of
/// piece `i` is genuine, every write at the place of piece `i` carries the
/// bytes that `data` gives for the blocks of the piece, one after the
/// other, as many as the piece has: what arrives again for a block that
/// has been retrieved does not reach the file.
pub proof fn lemma_written_is_genuine(
    m: ManagerView,
    events: Seq<Event>,
    n: int,
    i: int,
    data: spec_fn(u64, u64) -> Seq<u8>,
)
    requires
        m.wf(),
        0 <= n <= events.len(),
        0 <= i < m.geometry.piece_count(),
        m.stores_piece(i, data),
        first_arrivals_genuine(m, events, n, i, data),
    ensures
        m.after(events, n).stores_piece(i, data),
        forall|t: int|
            0 <= t < m.writes(events, n).len() && (#[trigger] m.writes(events, n)[t]).offset
                == m.place(i) ==> m.writes(events, n)[t].data == expected(
                data,
                i,
                block_count(m.geometry.piece_size(i)),
            ) && m.writes(events, n)[t].data.len() == m.geometry.piece_size(i),
    decreases n,
{
    if n > 0 {
        assert(first_arrivals_genuine(m, events, n - 1, i, data));
        lemma_written_is_genuine(m, events, n - 1, i, data);
        lemma_after_wf(m, events, n - 1);
        let before = m.after(events, n - 1);
        let earlier = m.writes(events, n - 1);
        let all = m.writes(events, n);
        assert(before.place(i) == m.place(i));
        match events[n - 1] {
            Event::Ask { id, now } => {
                lemma_ask_keeps(before, id, now, i, data);
                assert(all == earlier);
            },
            Event::Deliver { piece, offset, data: bytes } => {
                lemma_deliver_keeps(before, piece, offset, bytes, i, data);
                match before.received_step(piece, offset, bytes).1 {
                    Some(write) => {
                        assert(all == earlier.push(write));
                    },
                    None => {
                        assert(all == earlier);
                    },
                }
            },
            _ => {
                assert(before.step(events[n - 1]).0.ongoing == before.ongoing);
                assert(all == earlier);
            },
        }
        assert forall|t: int| 0 <= t < all.len() && (#[trigger] all[t]).offset == m.place(
            i,
        ) implies all[t].data == expected(data, i, block_count(m.geometry.piece_size(i)))
            && all[t].data.len() == m.geometry.piece_size(i) by {
            if t < earlier.len() {
                assert(all[t] == earlier[t]);
            }
        }
    }
}

/// The arrival of the genuine bytes of block `b` of piece `i`.
pub open spec fn arrival(data: spec_fn(u64, u64) -> Seq<u8>, i: int, b: int) -> Event {
    Event::Deliver { piece: i as u64, offset: (b * 16384) as u64, data: block_data(data, i, b) }
}

/// Whether the genuine bytes of block `b` of piece `i` arrive among the
/// first `n` of `events`.
pub open spec fn arrived(
    events: Seq<Event>,
    n: int,
    data: spec_fn(u64, u64) -> Seq<u8>,
    i: int,
    b: int,
) -> bool {
    exists|t: int| 0 <= t < n && #[trigger] events[t] == arrival(data, i, b)
}

impl ManagerView {
    /// Whether piece `i` is ongoing at position `k` and has retrieved every
    /// block that `got` names.
    pub open spec fn holds_at(self, k: int, i: int, got: spec_fn(int) -> bool) -> bool {
        &&& 0 <= k < self.ongoing.len()
        &&& self.ongoing[k].index == i
        &&& forall|b: int|
            0 <= b < self.ongoing[k].blocks.len() && got(b) ==> (
            #[trigger] self.ongoing[k].blocks[b]).status == Status::Retrieved
    }

    /// Whether piece `i` has been verified, or is ongoing and has retrieved
    /// every block that `got` names.
    pub open spec fn holding(self, i: int, got: spec_fn(int) -> bool) -> bool {
        self.verified(i) || exists|k: int| #[trigger] self.holds_at(k, i, got)
    }
}

/// A request leaves every ongoing piece where it is, with the blocks
/// retrieved that were.
proof fn lemma_ask_keeps_retrieved(
    m: ManagerView,
    id: Seq<char>,
    now: u128,
    k: int,
    i: int,
    got: spec_fn(int) -> bool,
)
    requires
        m.wf(),
        m.holds_at(k, i, got),
    ensures
        m.request_step(id, now).0.holds_at(k, i, got),
{
    let after = m.request_step(id, now).0;
    if m.bitfield_of(id) is Some {
        let bitfield = m.bitfield_of(id)->0;
        assert(m.expired_step(id, now).0.ongoing == m.ongoing);
        m.lemma_first_workable(bitfield);
        let w = m.first_workable(bitfield);
        if w < m.ongoing.len() {
            m.ongoing[w].lemma_first_missing();
            let asked = m.asked(w, now);
            assert forall|b: int|
                0 <= b < asked.ongoing[k].blocks.len() && got(b) implies (
            #[trigger] asked.ongoing[k].blocks[b]).status == Status::Retrieved by {
                assert(m.ongoing[k].blocks[b].status == Status::Retrieved);
            }
            assert(asked.holds_at(k, i, got));
        }
        lemma_rarest_upto(m, bitfield, m.missing.len() as int);
        let r = m.rarest(bitfield);
        if r >= 0 {
            let started = m.started(r);
            assert(started.ongoing[k] == m.ongoing[k]);
            assert(started.holds_at(k, i, got));
            assert(started.bitfield_of(id) == m.bitfield_of(id));
            started.lemma_first_workable(bitfield);
            let w2 = started.first_workable(bitfield);
            if w2 < started.ongoing.len() {
                started.ongoing[w2].lemma_first_missing();
                let asked = started.asked(w2, now);
                assert forall|b: int|
                    0 <= b < asked.ongoing[k].blocks.len() && got(b) implies (
                #[trigger] asked.ongoing[k].blocks[b]).status == Status::Retrieved by {
                    assert(started.ongoing[k].blocks[b].status == Status::Retrieved);
                }
                assert(asked.holds_at(k, i, got));
            }
        }
    }
}

/// What one operation does to a piece that is arriving: with genuine first
/// arrivals, the piece stays verified or ongoing, keeps the blocks that it
/// has retrieved, and has retrieved the block whose genuine bytes the
/// operation brings, if it brings any.
proof fn lemma_step_holding(
    m: ManagerView,
    event: Event,
    i: int,
    data: spec_fn(u64, u64) -> Seq<u8>,
    got: spec_fn(int) -> bool,
    more: spec_fn(int) -> bool,
)
    requires
        m.wf(),
        0 <= i < m.geometry.piece_count(),
        genuine(m.geometry, data),
        m.stores_piece(i, data),
        m.holding(i, got),
        event matches Event::Deliver { piece, offset, data: bytes } ==> piece == i && m.accepts(
            piece,
            offset,
            bytes.len() as int,
        ) ==> bytes == data(piece, offset),
        forall|b: int| #[trigger] more(b) ==> got(b) || event == arrival(data, i, b),
    ensures
        m.step(event).0.holding(i, more),
{
    let after = m.step(event).0;
    lemma_step_verifies(m, event, i);
    if !m.verified(i) {
        let k = choose|k: int| #[trigger] m.holds_at(k, i, got);
        let held = m.ongoing[k];
        lemma_ongoing_pieces(m);
        lemma_piece_size(m.geometry, i);
        match event {
            Event::Ask { id, now } => {
                lemma_ask_keeps_retrieved(m, id, now, k, i, got);
                assert(after.holds_at(k, i, more));
            },
            Event::Deliver { piece, offset, data: bytes } => {
                m.lemma_ongoing_pos(piece);
                if piece == i {
                    // the piece is found where it stands
                    let at = m.ongoing_pos(piece);
                    if at < k {
                        assert(m.ongoing[at].index != m.ongoing[k].index);
                    }
                    assert(at == k);
                    held.lemma_find_offset(offset);
                }
                // the block that a genuine arrival is for
                assert forall|b: int|
                    0 <= b < held.blocks.len() && event == arrival(data, i, b) implies piece == i
                    && held.find_offset(offset) == b && bytes.len()
                    == held.blocks[b].length by {
                    lemma_laid_out_block(held, m.geometry, b);
                    assert(held.blocks[b].with(Status::Missing, None) == block_layout(
                        i,
                        m.geometry.piece_size(i),
                        b,
                    ));
                    let found = held.find_offset(offset);
                    if found < b {
                        lemma_laid_out_block(held, m.geometry, found);
                    }
                    assert(bytes == block_data(data, i, b));
                }
                if !m.accepts(piece, offset, bytes.len() as int) {
                    assert(after == m);
                    assert forall|b: int|
                        0 <= b < after.ongoing[k].blocks.len() && more(b) implies (
                    #[trigger] after.ongoing[k].blocks[b]).status == Status::Retrieved by {
                        if !got(b) {
                            assert(event == arrival(data, i, b));
                        }
                    }
                    assert(after.holds_at(k, i, more));
                } else {
                    lemma_taken_place(m, piece, offset, bytes.len() as int);
                    let at = m.ongoing_pos(piece);
                    let target = m.ongoing[at];
                    let spot = target.find_offset(offset);
                    let filled = target.received(offset, bytes);
                    let put = target.blocks[spot].with(Status::Retrieved, Some(bytes));
                    assert(filled.blocks == target.blocks.update(spot, put));
                    if piece == i {
                        assert forall|b: int|
                            0 <= b < filled.blocks.len() && more(b) implies (
                        #[trigger] filled.blocks[b]).status == Status::Retrieved by {
                            if !got(b) {
                                assert(event == arrival(data, i, b));
                            } else if b != spot {
                                assert(filled.blocks[b] == held.blocks[b]);
                            }
                        }
                        if filled.is_complete() {
                            // a piece that is filled with genuine data matches its hash
                            assert(target.in_progress()) by {
                                reveal(ManagerView::states_wf);
                            }
                            lemma_laid_out_block(target, m.geometry, spot);
                            assert(filled.laid_out(m.geometry)) by {
                                assert forall|n: int| 0 <= n < filled.blocks.len() implies (
                                #[trigger] filled.blocks[n]).with(Status::Missing, None)
                                    == target.blocks[n].with(Status::Missing, None) by {}
                            }
                            assert forall|n: int| 0 <= n < filled.blocks.len() implies (
                            #[trigger] filled.blocks[n]).data == Some(
                                data(filled.blocks[n].piece, filled.blocks[n].offset),
                            ) by {
                                assert(filled.blocks[n].status == Status::Retrieved);
                                if n != spot {
                                    assert(filled.blocks[n] == m.ongoing[k].blocks[n]);
                                }
                            }
                            lemma_payload_expected(
                                filled,
                                m.geometry,
                                data,
                                filled.blocks.len() as int,
                            );
                            assert(m.geometry.piece_hash(i) == filled.hash_value);
                            assert(filled.hash_matches());
                            assert(after.have == m.have.push(filled.sealed()));
                            assert(after.have[m.have.len() as int].index == i);
                            assert(after.verified(i));
                        } else {
                            assert(after.ongoing == m.ongoing.update(k, filled));
                            assert(after.holds_at(k, i, more));
                        }
                    } else {
                        assert(at != k);
                        assert forall|b: int| #[trigger] more(b) implies got(b) by {
                            if !got(b) {
                                assert(event == arrival(data, i, b));
                            }
                        }
                        if filled.is_complete() && filled.hash_matches() {
                            assert(after.ongoing == m.ongoing.remove(at));
                            let moved = if k < at {
                                k
                            } else {
                                k - 1
                            };
                            assert(after.ongoing[moved] == m.ongoing[k]);
                            assert(after.holds_at(moved, i, more));
                        } else {
                            let kept = if filled.is_complete() {
                                filled.cleared()
                            } else {
                                filled
                            };
                            assert(after.ongoing == m.ongoing.update(at, kept));
                            assert(after.ongoing[k] == m.ongoing[k]);
                            assert(after.holds_at(k, i, more));
                        }
                    }
                }
            },
            _ => {
                assert(after.ongoing == m.ongoing);
                assert forall|b: int| #[trigger] more(b) implies got(b) by {
                    if !got(b) {
                        assert(event == arrival(data, i, b));
                    }
                }
                assert(after.holds_at(k, i, more));
            },
        }
    }
}

/// Over any run of operations in which the first arrival for each block of
/// piece `i` is genuine, a piece that is ongoing or verified at the start
/// stays so, and has retrieved every block whose genuine bytes have
/// arrived. So once the genuine bytes of every block have arrived, in
/// whatever order and with whatever arriving again in between, the piece
/// is verified.
pub proof fn lemma_piece_arrives(
    m: ManagerView,
    events: Seq<Event>,
    n: int,
    i: int,
    data: spec_fn(u64, u64) -> Seq<u8>,
)
    requires
        m.wf(),
        0 <= n <= events.len(),
        0 <= i < m.geometry.piece_count(),
        genuine(m.geometry, data),
        m.stores_piece(i, data),
        m.holding(i, |b: int| false),
        first_arrivals_genuine(m, events, n, i, data),
    ensures
        m.after(events, n).holding(i, |b: int| arrived(events, n, data, i, b)),
        (forall|b: int|
            0 <= b < block_count(m.geometry.piece_size(i)) ==> arrived(events, n, data, i, b))
            ==> m.after(events, n).verified(i),
    decreases n,
{
    let got = |b: int| arrived(events, n, data, i, b);
    if n > 0 {
        let earlier = |b: int| arrived(events, n - 1, data, i, b);
        assert(first_arrivals_genuine(m, events, n - 1, i, data));
        lemma_piece_arrives(m, events, n - 1, i, data);
        lemma_written_is_genuine(m, events, n - 1, i, data);
        lemma_after_wf(m, events, n - 1);
        let before = m.after(events, n - 1);
        assert forall|b: int| #[trigger] got(b) implies earlier(b) || events[n - 1] == arrival(
            data,
            i,
            b,
        ) by {
            let t = choose|t: int| 0 <= t < n && #[trigger] events[t] == arrival(data, i, b);
            if t < n - 1 {
                assert(arrived(events, n - 1, data, i, b));
            }
        }
        lemma_step_holding(before, events[n - 1], i, data, earlier, got);
    } else {
        let none = |b: int| false;
        if !m.verified(i) {
            let k = choose|k: int| #[trigger] m.holds_at(k, i, none);
            assert(m.holds_at(k, i, got));
        }
    }
    let last = m.after(events, n);
    lemma_after_wf(m, events, n);
    if !last.verified(i) && (forall|b: int|
        0 <= b < block_count(m.geometry.piece_size(i)) ==> arrived(events, n, data, i, b)) {
        let k = choose|k: int| #[trigger] last.holds_at(k, i, got);
        lemma_ongoing_pieces(last);
        assert(last.ongoing[k].in_progress()) by {
            reveal(ManagerView::states_wf);
        }
        assert forall|b: int| 0 <= b < last.ongoing[k].blocks.len() implies (
        #[trigger] last.ongoing[k].blocks[b]).status == Status::Retrieved by {
            assert(got(b));
        }
    }
}

} // verus!
