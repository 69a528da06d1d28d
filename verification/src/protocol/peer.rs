//! The state of one peer connection after the handshake, and what each
//! message from the peer does to it.
//!
//! Nothing here touches the network: the owner of the connection hands
//! over each message that it has read and carries out the actions that
//! come back.

use super::wire::{unpack_bitfield, unpacked, Message, MessageView};

use crate::client::manager::{write_view, PieceManager, PieceWrite};
use crate::client::model::{ManagerView, PieceWriteView};
use crate::client::schedule::lemma_request_in_bounds;
use crate::client::BlockView;
use vstd::prelude::*;

verus! {

/// How many requests may be under way with one peer.
pub const REQUEST_WINDOW: u32 = 5;

/// The largest payload that is read from a peer: a block and the nine bytes
/// before it, or a bitfield of up to that size.
pub const FRAME_LIMIT: u32 = 16384 + 9;

/// What this side and the peer have told each other, and how many requests
/// are under way.
#[derive(Debug, Clone, PartialEq, Eq)]
pub struct PeerState {
    pub am_choking: bool,
    pub am_interested: bool,
    pub peer_choking: bool,
    pub peer_interested: bool,
    pub closed: bool,
    pub registered: bool,
    pub outstanding: u32,
    pub peer_id: String,
}

/// The model of a `PeerState`.
pub struct PeerModel {
    pub am_choking: bool,
    pub am_interested: bool,
    pub peer_choking: bool,
    pub peer_interested: bool,
    pub closed: bool,
    pub registered: bool,
    pub outstanding: u32,
    pub id: Seq<char>,
}

impl View for PeerState {
    type V = PeerModel;

    open spec fn view(&self) -> PeerModel {
        PeerModel {
            am_choking: self.am_choking,
            am_interested: self.am_interested,
            peer_choking: self.peer_choking,
            peer_interested: self.peer_interested,
            closed: self.closed,
            registered: self.registered,
            outstanding: self.outstanding,
            id: self.peer_id@,
        }
    }
}

/// What the owner of the connection has to do.
#[derive(Debug, Clone, PartialEq, Eq)]
pub enum Action {
    /// Send this message to the peer.
    Send(Message),
    /// Write these bytes to the file.
    Write(PieceWrite),
    /// Close the connection.
    Close,
}

/// The model of an `Action`.
pub enum ActionView {
    Send(MessageView),
    Write(PieceWriteView),
    Close,
}

impl View for Action {
    type V = ActionView;

    open spec fn view(&self) -> ActionView {
        match self {
            Action::Send(m) => ActionView::Send(m@),
            Action::Write(w) => ActionView::Write(w@),
            Action::Close => ActionView::Close,
        }
    }
}

/// The models of `actions`, in order.
pub open spec fn actions_view(actions: Seq<Action>) -> Seq<ActionView> {
    actions.map_values(|a: Action| a@)
}

/// What a message, or the request pump, leaves behind: the state of the
/// connection, the state of the piece manager, and what is to be done.
pub struct Outcome {
    pub peer: PeerModel,
    pub manager: ManagerView,
    pub actions: Seq<ActionView>,
}

/// The request that asks the peer for `block`.
pub open spec fn request_for_block(block: BlockView) -> ActionView {
    ActionView::Send(
        MessageView::Request {
            index: block.piece as u32,
            begin: block.offset as u32,
            length: block.length as u32,
        },
    )
}

impl PeerModel {
    /// The state with another count of requests under way.
    pub open spec fn with_outstanding(self, outstanding: u32) -> PeerModel {
        PeerModel { outstanding, ..self }
    }

    /// Whether requests may be sent: the connection is open, the peer does
    /// not choke, this side is interested, and the window is not full.
    pub open spec fn may_request(self) -> bool {
        &&& !self.closed
        &&& !self.peer_choking
        &&& self.am_interested
        &&& self.outstanding < REQUEST_WINDOW
    }
}

/// The outcome `rest` with `actions` before its own.
pub open spec fn after_actions(actions: Seq<ActionView>, rest: Outcome) -> Outcome {
    Outcome { peer: rest.peer, manager: rest.manager, actions: actions + rest.actions }
}

/// The request pump at the time `now`: while requests may be sent, the
/// scheduler is asked for the next block and a request for it is sent; the
/// pump stops when the scheduler has no block.
pub open spec fn pump(peer: PeerModel, m: ManagerView, now: u128) -> Outcome
    decreases REQUEST_WINDOW - peer.outstanding,
{
    if !peer.may_request() {
        Outcome { peer, manager: m, actions: Seq::empty() }
    } else {
        let (asked, block) = m.request_step(peer.id, now);
        match block {
            None => Outcome { peer, manager: asked, actions: Seq::empty() },
            Some(b) => after_actions(
                seq![request_for_block(b)],
                pump(peer.with_outstanding((peer.outstanding + 1) as u32), asked, now),
            ),
        }
    }
}

/// What learning of the peer's pieces does: when this side was not
/// interested and the peer holds a piece that is still needed, this side
/// becomes interested and says so.
pub open spec fn interest(peer: PeerModel, m: ManagerView) -> Outcome {
    if !peer.am_interested && m.wants(peer.id) {
        Outcome {
            peer: PeerModel { am_interested: true, ..peer },
            manager: m,
            actions: seq![ActionView::Send(MessageView::Interested)],
        }
    } else {
        Outcome { peer, manager: m, actions: Seq::empty() }
    }
}

/// The end of a connection: it is closed, and the piece manager forgets the
/// peer.
pub open spec fn failed(peer: PeerModel, m: ManagerView) -> Outcome {
    Outcome {
        peer: PeerModel { closed: true, ..peer },
        manager: m.without_peer(peer.id),
        actions: seq![ActionView::Close],
    }
}

/// A bitfield of `n` pieces of which none is held.
pub open spec fn no_pieces(n: int) -> Seq<u8> {
    Seq::new(n as nat, |i: int| 0u8)
}

/// What a message from the peer does at the time `now`.
///
/// A closed connection ignores every message. `Choke` stops the requests
/// and abandons those under way; `Unchoke` starts the request pump. A
/// bitfield registers the peer, and a `Have` notes one more piece,
/// registering the peer first when it is not known; both make this side
/// interested when the peer holds a piece that is still needed. A bitfield
/// of the wrong form ends the connection. A block is handed to the piece
/// manager, the file gets what a completed piece asks for, and the pump
/// runs again. `Interested` and `NotInterested` are noted; requests of the
/// peer are not served.
pub open spec fn react(peer: PeerModel, m: ManagerView, message: MessageView, now: u128) -> Outcome {
    let quiet = Outcome { peer, manager: m, actions: Seq::empty() };
    if peer.closed {
        quiet
    } else {
        match message {
            MessageView::KeepAlive => quiet,
            MessageView::Choke => Outcome {
                peer: PeerModel { peer_choking: true, outstanding: 0, ..peer },
                manager: m,
                actions: Seq::empty(),
            },
            MessageView::Unchoke => pump(PeerModel { peer_choking: false, ..peer }, m, now),
            MessageView::Interested => Outcome {
                peer: PeerModel { peer_interested: true, ..peer },
                manager: m,
                actions: Seq::empty(),
            },
            MessageView::NotInterested => Outcome {
                peer: PeerModel { peer_interested: false, ..peer },
                manager: m,
                actions: Seq::empty(),
            },
            MessageView::Have(index) => {
                let known = if peer.registered {
                    m
                } else {
                    m.with_peer(peer.id, no_pieces(m.geometry.piece_count()))
                };
                interest(PeerModel { registered: true, ..peer }, known.with_have(peer.id, index))
            },
            MessageView::Bitfield(packed) => match unpacked(packed, m.geometry.piece_count()) {
                Err(_) => failed(peer, m),
                Ok(bits) => interest(
                    PeerModel { registered: true, ..peer },
                    m.with_peer(peer.id, bits),
                ),
            },
            MessageView::Request { .. } => quiet,
            MessageView::Cancel { .. } => quiet,
            MessageView::Port(_) => quiet,
            MessageView::Piece { index, begin, data } => {
                let (taken, write) = m.received_step(index as u64, begin as u64, data);
                let fewer = if peer.outstanding > 0 {
                    (peer.outstanding - 1) as u32
                } else {
                    0u32
                };
                let writes = match write {
                    Some(w) => seq![ActionView::Write(w)],
                    None => Seq::empty(),
                };
                after_actions(writes, pump(peer.with_outstanding(fewer), taken, now))
            },
        }
    }
}

/// A pump that may not send requests does nothing.
pub proof fn lemma_pump_idle(peer: PeerModel, m: ManagerView, now: u128)
    requires
        !peer.may_request(),
    ensures
        pump(peer, m, now) == (Outcome { peer, manager: m, actions: Seq::empty() }),
{
}

/// While the peer chokes, no request is sent: whatever message but
/// `Unchoke` arrives on a connection whose peer chokes, and also when the
/// message is `Choke` itself, no action asks the peer for a block. The peer
/// chokes afterwards, unless the connection was closed already and the
/// peer did not choke, in which case the message is ignored. On an open
/// connection `Choke` abandons the requests under way and leaves the piece
/// manager as it is.
pub proof fn lemma_choked_sends_no_request(
    peer: PeerModel,
    m: ManagerView,
    message: MessageView,
    now: u128,
)
    requires
        peer.peer_choking || message is Choke,
        !(message is Unchoke),
    ensures
        peer.peer_choking || !peer.closed ==> react(peer, m, message, now).peer.peer_choking,
        forall|i: int|
            0 <= i < react(peer, m, message, now).actions.len() ==> !(#[trigger] react(
                peer,
                m,
                message,
                now,
            ).actions[i] matches ActionView::Send(MessageView::Request { .. })),
        message is Choke && !peer.closed ==> react(peer, m, message, now).peer.outstanding == 0
            && react(peer, m, message, now).manager == m,
{
    if !peer.closed {
        match message {
            MessageView::Piece { index, begin, data } => {
                let (taken, write) = m.received_step(index as u64, begin as u64, data);
                let fewer = if peer.outstanding > 0 {
                    (peer.outstanding - 1) as u32
                } else {
                    0u32
                };
                lemma_pump_idle(peer.with_outstanding(fewer), taken, now);
            },
            _ => {},
        }
    }
}

/// The request pump never has more than `REQUEST_WINDOW` requests under
/// way, and sends nothing but requests.
pub proof fn lemma_pump_window(peer: PeerModel, m: ManagerView, now: u128)
    requires
        peer.outstanding <= REQUEST_WINDOW,
    ensures
        pump(peer, m, now).peer.outstanding <= REQUEST_WINDOW,
        pump(peer, m, now).peer.outstanding == peer.outstanding + pump(peer, m, now).actions.len(),
        forall|i: int|
            0 <= i < pump(peer, m, now).actions.len() ==> (#[trigger] pump(peer, m, now).actions[i]
                matches ActionView::Send(MessageView::Request { .. })),
    decreases REQUEST_WINDOW - peer.outstanding,
{
    if peer.may_request() {
        let (asked, block) = m.request_step(peer.id, now);
        if block is Some {
            lemma_pump_window(peer.with_outstanding((peer.outstanding + 1) as u32), asked, now);
        }
    }
}

/// A bitfield of `n` pieces of which none is held.
fn empty_bitfield(n: usize) -> (bits: Vec<u8>)
    ensures
        bits@ == no_pieces(n as int),
{
    let mut bits: Vec<u8> = Vec::new();
    let mut i: usize = 0;
    while i < n
        invariant
            i <= n,
            bits@.len() == i,
            forall|j: int| 0 <= j < i ==> bits@[j] == 0u8,
        decreases n - i,
    {
        bits.push(0);
        i += 1;
    }
    assert(bits@ =~= no_pieces(n as int));
    bits
}

impl PeerState {
    /// The state of a connection right after the handshake: both sides
    /// choke, neither is interested, nothing is under way.
    pub fn new(peer_id: String) -> (state: PeerState)
        ensures
            state@ == (PeerModel {
                am_choking: true,
                am_interested: false,
                peer_choking: true,
                peer_interested: false,
                closed: false,
                registered: false,
                outstanding: 0,
                id: peer_id@,
            }),
    {
        PeerState {
            am_choking: true,
            am_interested: false,
            peer_choking: true,
            peer_interested: false,
            closed: false,
            registered: false,
            outstanding: 0,
            peer_id,
        }
    }

    /// Runs the request pump at the time `now` and appends the requests to
    /// `actions`.
    fn run_pump(&mut self, manager: &mut PieceManager, now: u128, actions: &mut Vec<Action>)
        requires
            old(manager).wf(),
        ensures
            final(manager).wf(),
            final(self)@ == pump(old(self)@, old(manager)@, now).peer,
            final(manager)@ == pump(old(self)@, old(manager)@, now).manager,
            actions_view(final(actions)@) == actions_view(old(actions)@) + pump(
                old(self)@,
                old(manager)@,
                now,
            ).actions,
    {
        let ghost goal = pump(old(self)@, old(manager)@, now);
        let ghost head = actions_view(old(actions)@);
        let ghost mut sent: Seq<ActionView> = Seq::empty();
        assert(actions_view(actions@) =~= head + sent);
        assert(after_actions(sent, pump(self@, manager@, now)) == goal) by {
            assert(sent + pump(self@, manager@, now).actions =~= pump(
                self@,
                manager@,
                now,
            ).actions);
        }
        while !self.closed && !self.peer_choking && self.am_interested && self.outstanding
            < REQUEST_WINDOW
            invariant
                manager.wf(),
                goal == pump(old(self)@, old(manager)@, now),
                head == actions_view(old(actions)@),
                after_actions(sent, pump(self@, manager@, now)) == goal,
                actions_view(actions@) == head + sent,
            decreases REQUEST_WINDOW - self.outstanding,
        {
            let ghost peer = self@;
            let ghost before = manager@;
            proof {
                lemma_request_in_bounds(before, peer.id, now);
            }
            match manager.next_request_at(&self.peer_id, now) {
                None => {
                    proof {
                        assert(peer.may_request());
                        assert(before.request_step(peer.id, now) == (
                            manager@,
                            None::<BlockView>,
                        ));
                        assert(pump(peer, before, now) == (Outcome {
                            peer,
                            manager: manager@,
                            actions: Seq::empty(),
                        }));
                        assert(sent + Seq::<ActionView>::empty() =~= sent);
                        assert(actions_view(actions@) =~= head + goal.actions);
                    }
                    return ;
                },
                Some(block) => {
                    let request = Message::Request {
                        index: block.piece as u32,
                        begin: block.offset as u32,
                        length: block.length as u32,
                    };
                    let ghost shown = actions_view(actions@);
                    actions.push(Action::Send(request));
                    self.outstanding = self.outstanding + 1;
                    proof {
                        let one = request_for_block(block@);
                        assert(actions_view(actions@) =~= shown.push(one));
                        assert(peer.may_request());
                        assert(before.request_step(peer.id, now) == (manager@, Some(block@)));
                        assert(self@ == peer.with_outstanding((peer.outstanding + 1) as u32));
                        let rest = pump(self@, manager@, now);
                        assert(pump(peer, before, now) == after_actions(seq![one], rest));
                        assert(sent + (seq![one] + rest.actions) =~= sent.push(one)
                            + rest.actions);
                        sent = sent.push(one);
                        assert(actions_view(actions@) =~= head + sent);
                    }
                },
            }
        }
        proof {
            lemma_pump_idle(self@, manager@, now);
            assert(sent + Seq::<ActionView>::empty() =~= sent);
        }
    }

    /// Makes this side interested, and says so, when it was not and the
    /// peer holds a piece that is still needed.
    fn show_interest(&mut self, manager: &PieceManager, actions: &mut Vec<Action>)
        ensures
            final(self)@ == interest(old(self)@, manager@).peer,
            actions_view(final(actions)@) == actions_view(old(actions)@) + interest(
                old(self)@,
                manager@,
            ).actions,
    {
        let ghost shown = actions_view(actions@);
        if !self.am_interested && manager.needs_from(&self.peer_id) {
            self.am_interested = true;
            actions.push(Action::Send(Message::Interested));
            assert(actions_view(actions@) =~= shown + seq![
                ActionView::Send(MessageView::Interested),
            ]);
        } else {
            assert(actions_view(actions@) =~= shown + Seq::<ActionView>::empty());
        }
    }

    /// Ends the connection after an error of the transport or a message
    /// that is no message: the connection is closed, the piece manager
    /// forgets the peer, and the owner is told to close.
    pub fn on_failure(&mut self, manager: &mut PieceManager) -> (actions: Vec<Action>)
        requires
            old(manager).wf(),
        ensures
            final(manager).wf(),
            final(self)@ == failed(old(self)@, old(manager)@).peer,
            final(manager)@ == failed(old(self)@, old(manager)@).manager,
            actions_view(actions@) == failed(old(self)@, old(manager)@).actions,
    {
        self.closed = true;
        manager.delete_peer(self.peer_id.clone());
        let mut actions: Vec<Action> = Vec::new();
        actions.push(Action::Close);
        assert(actions_view(actions@) =~= seq![ActionView::Close]);
        actions
    }

    /// Takes in a message from the peer at the time `now`, and says what
    /// the owner of the connection has to do: see `react`.
    pub fn on_message(&mut self, manager: &mut PieceManager, message: Message, now: u128) -> (actions:
        Vec<Action>)
        requires
            old(manager).wf(),
        ensures
            final(manager).wf(),
            final(self)@ == react(old(self)@, old(manager)@, message@, now).peer,
            final(manager)@ == react(old(self)@, old(manager)@, message@, now).manager,
            actions_view(actions@) == react(old(self)@, old(manager)@, message@, now).actions,
    {
        let mut actions: Vec<Action> = Vec::new();
        assert(actions_view(actions@) =~= Seq::<ActionView>::empty());
        if self.closed {
            return actions;
        }
        let ghost goal = react(old(self)@, old(manager)@, message@, now);
        match message {
            Message::KeepAlive => {},
            Message::Request { .. } => {},
            Message::Cancel { .. } => {},
            Message::Port(_) => {},
            Message::Choke => {
                self.peer_choking = true;
                self.outstanding = 0;
            },
            Message::Interested => {
                self.peer_interested = true;
            },
            Message::NotInterested => {
                self.peer_interested = false;
            },
            Message::Unchoke => {
                self.peer_choking = false;
                self.run_pump(manager, now, &mut actions);
                assert(actions_view(actions@) =~= goal.actions);
            },
            Message::Have(index) => {
                if !self.registered {
                    let count = manager.piece_count();
                    manager.add_peer(self.peer_id.clone(), empty_bitfield(count));
                }
                self.registered = true;
                manager.update_peer(self.peer_id.clone(), index);
                self.show_interest(manager, &mut actions);
                assert(actions_view(actions@) =~= goal.actions);
            },
            Message::Bitfield(packed) => {
                let count = manager.piece_count();
                proof {
                    reveal(ManagerView::pieces_wf);
                    assert(old(manager)@.geometry.wf());
                }
                match unpack_bitfield(packed.as_slice(), count) {
                    Err(_) => {
                        let closing = self.on_failure(manager);
                        return closing;
                    },
                    Ok(bits) => {
                        self.registered = true;
                        manager.add_peer(self.peer_id.clone(), bits);
                        self.show_interest(manager, &mut actions);
                        assert(actions_view(actions@) =~= goal.actions);
                    },
                }
            },
            Message::Piece { index, begin, data } => {
                let write = manager.block_received(
                    self.peer_id.clone(),
                    index as u64,
                    begin as u64,
                    data,
                );
                if self.outstanding > 0 {
                    self.outstanding = self.outstanding - 1;
                }
                let ghost writes = match write_view(write) {
                    Some(w) => seq![ActionView::Write(w)],
                    None => Seq::<ActionView>::empty(),
                };
                match write {
                    Some(w) => {
                        actions.push(Action::Write(w));
                    },
                    None => {},
                }
                assert(actions_view(actions@) =~= writes);
                self.run_pump(manager, now, &mut actions);
            },
        }
        actions
    }
}

} // verus!
