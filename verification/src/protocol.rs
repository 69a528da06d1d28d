//! The peer wire protocol: the handshake and the kinds of message.

use crate::ascii::{ascii, ascii_bytes};
use crate::bencoding::bytes_equal;
use vstd::prelude::*;

pub mod peer;
pub mod wire;

verus! {

/// The length of a handshake: 49 bytes and the 19 of the protocol name.
pub const HANDSHAKE_LENGTH: usize = 68;

/// The name of the protocol, as the handshake spells it.
pub open spec fn protocol_name() -> Seq<u8> {
    ascii("BitTorrent protocol"@)
}

/// The bytes of a handshake: the length of the protocol name, the name,
/// eight reserved bytes, all zero, the info-hash and the peer id.
pub open spec fn handshake_bytes(info_hash: Seq<u8>, peer_id: Seq<u8>) -> Seq<u8> {
    seq![19u8] + protocol_name() + Seq::new(8, |i: int| 0u8) + info_hash + peer_id
}

/// Why bytes are no handshake, or why a handshake cannot be made.
#[derive(Debug, Clone, Copy, PartialEq, Eq)]
pub enum HandshakeError {
    /// The info-hash does not have 20 bytes.
    InfoHashLength,
    /// The peer id does not have 20 bytes.
    PeerIdLength,
    /// There are not exactly 68 bytes.
    Length,
    /// The first byte, the length of the protocol name, is not 19.
    NameLength,
    /// The protocol name is not `BitTorrent protocol`.
    Name,
}

/// The first message on a connection: which torrent, and who is asking.
#[derive(Debug, PartialEq, Eq)]
pub struct Handshake {
    info_hash: Vec<u8>,
    peer_id: Vec<u8>,
}

/// The model of a handshake.
pub struct HandshakeView {
    pub info_hash: Seq<u8>,
    pub peer_id: Seq<u8>,
}

/// What reading `data` as a handshake gives.
pub open spec fn handshake_in(data: Seq<u8>) -> Result<HandshakeView, HandshakeError> {
    if data.len() != 68 {
        Err(HandshakeError::Length)
    } else if data[0] != 19 {
        Err(HandshakeError::NameLength)
    } else if data.subrange(1, 20) != protocol_name() {
        Err(HandshakeError::Name)
    } else {
        Ok(HandshakeView { info_hash: data.subrange(28, 48), peer_id: data.subrange(48, 68) })
    }
}

impl View for Handshake {
    type V = HandshakeView;

    closed spec fn view(&self) -> HandshakeView {
        HandshakeView { info_hash: self.info_hash@, peer_id: self.peer_id@ }
    }
}

impl Handshake {
    #[verifier::type_invariant]
    spec fn well_formed(&self) -> bool {
        self.info_hash@.len() == 20 && self.peer_id@.len() == 20
    }

    /// A handshake for the torrent `info_hash`, from the peer `peer_id`.
    /// Both must have 20 bytes.
    pub fn new(info_hash: Vec<u8>, peer_id: Vec<u8>) -> (made: Result<Handshake, HandshakeError>)
        ensures
            match made {
                Ok(h) => info_hash@.len() == 20 && peer_id@.len() == 20 && h@ == (HandshakeView {
                    info_hash: info_hash@,
                    peer_id: peer_id@,
                }),
                Err(e) => if info_hash@.len() != 20 {
                    e == HandshakeError::InfoHashLength
                } else {
                    peer_id@.len() != 20 && e == HandshakeError::PeerIdLength
                },
            },
    {
        if info_hash.len() != 20 {
            return Err(HandshakeError::InfoHashLength);
        }
        if peer_id.len() != 20 {
            return Err(HandshakeError::PeerIdLength);
        }
        Ok(Handshake { info_hash, peer_id })
    }

    /// The info-hash.
    pub fn info_hash(&self) -> (bytes: &Vec<u8>)
        ensures
            bytes@ == self@.info_hash,
            bytes@.len() == 20,
    {
        proof {
            use_type_invariant(self);
        }
        &self.info_hash
    }

    /// The peer id.
    pub fn peer_id(&self) -> (bytes: &Vec<u8>)
        ensures
            bytes@ == self@.peer_id,
            bytes@.len() == 20,
    {
        proof {
            use_type_invariant(self);
        }
        &self.peer_id
    }

    /// The 68 bytes of the handshake.
    pub fn encode(&self) -> (bytes: Vec<u8>)
        ensures
            bytes@ == handshake_bytes(self@.info_hash, self@.peer_id),
            bytes@.len() == 68,
    {
        proof {
            use_type_invariant(self);
            reveal_strlit("BitTorrent protocol");
        }
        let mut buf: Vec<u8> = Vec::with_capacity(68);
        buf.push(19);
        buf.extend_from_slice(ascii_bytes("BitTorrent protocol"));
        let ghost head = buf@;
        let mut k: usize = 0;
        while k < 8
            invariant
                k <= 8,
                buf@ == head + Seq::new(k as nat, |i: int| 0u8),
            decreases 8 - k,
        {
            buf.push(0);
            assert(buf@ =~= head + Seq::new((k + 1) as nat, |i: int| 0u8));
            k += 1;
        }
        let ghost reserved = buf@;
        buf.extend_from_slice(self.info_hash.as_slice());
        let ghost hashed = buf@;
        buf.extend_from_slice(self.peer_id.as_slice());
        proof {
            assert(head =~= seq![19u8] + protocol_name());
            assert(hashed =~= reserved + self.info_hash@);
            assert(buf@ =~= hashed + self.peer_id@);
            assert(buf@ =~= handshake_bytes(self@.info_hash, self@.peer_id));
        }
        buf
    }

    /// Reads the 68 bytes of a handshake. The reserved bytes may hold
    /// anything.
    pub fn decode(data: &[u8]) -> (read: Result<Handshake, HandshakeError>)
        ensures
            match read {
                Ok(h) => handshake_in(data@) == Ok::<HandshakeView, HandshakeError>(h@),
                Err(e) => handshake_in(data@) == Err::<HandshakeView, HandshakeError>(e),
            },
    {
        proof {
            reveal_strlit("BitTorrent protocol");
        }
        if data.len() != HANDSHAKE_LENGTH {
            return Err(HandshakeError::Length);
        }
        if data[0] != 19 {
            return Err(HandshakeError::NameLength);
        }
        let name = vstd::slice::slice_subrange(data, 1, 20);
        if !bytes_equal(name, ascii_bytes("BitTorrent protocol")) {
            return Err(HandshakeError::Name);
        }
        let info_hash = vstd::slice::slice_to_vec(vstd::slice::slice_subrange(data, 28, 48));
        let peer_id = vstd::slice::slice_to_vec(vstd::slice::slice_subrange(data, 48, 68));
        Ok(Handshake { info_hash, peer_id })
    }
}

/// Reading the bytes of a handshake gives the handshake back.
pub proof fn lemma_handshake_round_trip(info_hash: Seq<u8>, peer_id: Seq<u8>)
    requires
        info_hash.len() == 20,
        peer_id.len() == 20,
    ensures
        handshake_bytes(info_hash, peer_id).len() == 68,
        handshake_in(handshake_bytes(info_hash, peer_id)) == Ok::<HandshakeView, HandshakeError>(
            HandshakeView { info_hash, peer_id },
        ),
{
    reveal_strlit("BitTorrent protocol");
    let bytes = handshake_bytes(info_hash, peer_id);
    assert(protocol_name().len() == 19);
    assert(bytes.subrange(1, 20) =~= protocol_name());
    assert(bytes.subrange(28, 48) =~= info_hash);
    assert(bytes.subrange(48, 68) =~= peer_id);
}

/// The kinds of message that follow the handshake, by their id.
#[derive(Debug, Clone, Copy, PartialEq, Eq, Structural)]
pub enum MessageType {
    Choke,
    Unchoke,
    Interested,
    NotInterested,
    Have,
    Bitfield,
    Request,
    Piece,
    Cancel,
    Port,
}

impl MessageType {
    /// The id of the kind, as a specification value.
    pub open spec fn spec_id(self) -> u8 {
        match self {
            MessageType::Choke => 0,
            MessageType::Unchoke => 1,
            MessageType::Interested => 2,
            MessageType::NotInterested => 3,
            MessageType::Have => 4,
            MessageType::Bitfield => 5,
            MessageType::Request => 6,
            MessageType::Piece => 7,
            MessageType::Cancel => 8,
            MessageType::Port => 9,
        }
    }

    /// The byte that stands for the kind on the wire.
    pub fn id(self) -> (id: u8)
        ensures
            id == self.spec_id(),
    {
        match self {
            MessageType::Choke => 0,
            MessageType::Unchoke => 1,
            MessageType::Interested => 2,
            MessageType::NotInterested => 3,
            MessageType::Have => 4,
            MessageType::Bitfield => 5,
            MessageType::Request => 6,
            MessageType::Piece => 7,
            MessageType::Cancel => 8,
            MessageType::Port => 9,
        }
    }

    /// The kind that the byte `id` stands for, if it stands for one.
    pub fn from_id(id: u8) -> (kind: Option<MessageType>)
        ensures
            match kind {
                Some(k) => k.spec_id() == id,
                None => id > 9,
            },
    {
        match id {
            0 => Some(MessageType::Choke),
            1 => Some(MessageType::Unchoke),
            2 => Some(MessageType::Interested),
            3 => Some(MessageType::NotInterested),
            4 => Some(MessageType::Have),
            5 => Some(MessageType::Bitfield),
            6 => Some(MessageType::Request),
            7 => Some(MessageType::Piece),
            8 => Some(MessageType::Cancel),
            9 => Some(MessageType::Port),
            _ => None,
        }
    }
}

} // verus!
