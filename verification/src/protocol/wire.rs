//! Messages and their frames: four bytes of length, most significant
//! first, then as many bytes of payload, the first of which tells the kind
//! of the message.

use vstd::prelude::*;

verus! {

/// A message that follows the handshake.
#[derive(Debug, Clone, PartialEq, Eq)]
pub enum Message {
    KeepAlive,
    Choke,
    Unchoke,
    Interested,
    NotInterested,
    Have(u32),
    Bitfield(Vec<u8>),
    Request { index: u32, begin: u32, length: u32 },
    Piece { index: u32, begin: u32, data: Vec<u8> },
    Cancel { index: u32, begin: u32, length: u32 },
    Port(u16),
}

/// The model of a message.
pub enum MessageView {
    KeepAlive,
    Choke,
    Unchoke,
    Interested,
    NotInterested,
    Have(u32),
    Bitfield(Seq<u8>),
    Request { index: u32, begin: u32, length: u32 },
    Piece { index: u32, begin: u32, data: Seq<u8> },
    Cancel { index: u32, begin: u32, length: u32 },
    Port(u16),
}

impl View for Message {
    type V = MessageView;

    open spec fn view(&self) -> MessageView {
        match self {
            Message::KeepAlive => MessageView::KeepAlive,
            Message::Choke => MessageView::Choke,
            Message::Unchoke => MessageView::Unchoke,
            Message::Interested => MessageView::Interested,
            Message::NotInterested => MessageView::NotInterested,
            Message::Have(index) => MessageView::Have(*index),
            Message::Bitfield(bits) => MessageView::Bitfield(bits@),
            Message::Request { index, begin, length } => MessageView::Request {
                index: *index,
                begin: *begin,
                length: *length,
            },
            Message::Piece { index, begin, data } => MessageView::Piece {
                index: *index,
                begin: *begin,
                data: data@,
            },
            Message::Cancel { index, begin, length } => MessageView::Cancel {
                index: *index,
                begin: *begin,
                length: *length,
            },
            Message::Port(port) => MessageView::Port(*port),
        }
    }
}

/// Why bytes are no frame.
#[derive(Debug, Clone, Copy, PartialEq, Eq)]
pub enum WireError {
    /// The frame announces more payload than the reader admits.
    TooLong,
    /// The payload does not have the length that its kind of message has.
    BadLength,
    /// The first byte of the payload stands for no kind of message.
    UnknownId,
    /// A bitfield of the wrong length, or with a bit set behind the last
    /// piece.
    BadBitfield,
}

/// The four bytes of `n`, most significant first.
pub open spec fn be32(n: u32) -> Seq<u8> {
    seq![
        (n / 0x100_0000) as u8,
        (n / 0x1_0000 % 0x100) as u8,
        (n / 0x100 % 0x100) as u8,
        (n % 0x100) as u8,
    ]
}

/// The number that the four bytes of `s` from `at` on spell, most
/// significant first.
pub open spec fn from_be32(s: Seq<u8>, at: int) -> u32 {
    (s[at] * 0x100_0000 + s[at + 1] * 0x1_0000 + s[at + 2] * 0x100 + s[at + 3]) as u32
}

/// The two bytes of `n`, most significant first.
pub open spec fn be16(n: u16) -> Seq<u8> {
    seq![(n / 0x100) as u8, (n % 0x100) as u8]
}

/// The payload of a message: the byte of its kind, then its fields, the
/// numbers with their most significant byte first. A keep-alive has none.
pub open spec fn payload(m: MessageView) -> Seq<u8> {
    match m {
        MessageView::KeepAlive => Seq::empty(),
        MessageView::Choke => seq![0u8],
        MessageView::Unchoke => seq![1u8],
        MessageView::Interested => seq![2u8],
        MessageView::NotInterested => seq![3u8],
        MessageView::Have(index) => seq![4u8] + be32(index),
        MessageView::Bitfield(bits) => seq![5u8] + bits,
        MessageView::Request { index, begin, length } => seq![6u8] + be32(index) + be32(begin)
            + be32(length),
        MessageView::Piece { index, begin, data } => seq![7u8] + be32(index) + be32(begin) + data,
        MessageView::Cancel { index, begin, length } => seq![8u8] + be32(index) + be32(begin)
            + be32(length),
        MessageView::Port(port) => seq![9u8] + be16(port),
    }
}

/// The frame of a message: the length of its payload in four bytes, then
/// the payload.
pub open spec fn frame(m: MessageView) -> Seq<u8> {
    be32(payload(m).len() as u32) + payload(m)
}

/// The message whose payload is the `n` bytes of `s` from position 4 on.
pub open spec fn message_in(s: Seq<u8>, n: int) -> Result<MessageView, WireError> {
    let id = s[4];
    if n == 0 {
        Ok(MessageView::KeepAlive)
    } else if id > 9 {
        Err(WireError::UnknownId)
    } else if id <= 3 {
        if n != 1 {
            Err(WireError::BadLength)
        } else if id == 0 {
            Ok(MessageView::Choke)
        } else if id == 1 {
            Ok(MessageView::Unchoke)
        } else if id == 2 {
            Ok(MessageView::Interested)
        } else {
            Ok(MessageView::NotInterested)
        }
    } else if id == 4 {
        if n != 5 {
            Err(WireError::BadLength)
        } else {
            Ok(MessageView::Have(from_be32(s, 5)))
        }
    } else if id == 5 {
        Ok(MessageView::Bitfield(s.subrange(5, 4 + n)))
    } else if id == 6 || id == 8 {
        if n != 13 {
            Err(WireError::BadLength)
        } else if id == 6 {
            Ok(
                MessageView::Request {
                    index: from_be32(s, 5),
                    begin: from_be32(s, 9),
                    length: from_be32(s, 13),
                },
            )
        } else {
            Ok(
                MessageView::Cancel {
                    index: from_be32(s, 5),
                    begin: from_be32(s, 9),
                    length: from_be32(s, 13),
                },
            )
        }
    } else if id == 7 {
        if n < 9 {
            Err(WireError::BadLength)
        } else {
            Ok(
                MessageView::Piece {
                    index: from_be32(s, 5),
                    begin: from_be32(s, 9),
                    data: s.subrange(13, 4 + n),
                },
            )
        }
    } else {
        if n != 3 {
            Err(WireError::BadLength)
        } else {
            Ok(MessageView::Port((s[5] * 0x100 + s[6]) as u16))
        }
    }
}

/// What reading a frame from the start of `s` gives, when payloads of more
/// than `limit` bytes are not admitted: the message and the number of bytes
/// that its frame takes; nothing while `s` does not hold the whole frame;
/// an error for a frame that is too long or no message.
pub open spec fn frame_in(s: Seq<u8>, limit: u32) -> Result<Option<(MessageView, int)>, WireError> {
    if s.len() < 4 {
        Ok(None)
    } else {
        let n = from_be32(s, 0) as int;
        if n > limit {
            Err(WireError::TooLong)
        } else if s.len() - 4 < n {
            Ok(None)
        } else {
            match message_in(s, n) {
                Ok(m) => Ok(Some((m, 4 + n))),
                Err(e) => Err(e),
            }
        }
    }
}

/// The four bytes of a number spell the number.
pub proof fn lemma_be32_round_trip(n: u32, s: Seq<u8>, at: int)
    requires
        0 <= at,
        at + 4 <= s.len(),
        s.subrange(at, at + 4) == be32(n),
    ensures
        from_be32(s, at) == n,
{
    let b = be32(n);
    assert(s[at] == s.subrange(at, at + 4)[0]);
    assert(s[at + 1] == s.subrange(at, at + 4)[1]);
    assert(s[at + 2] == s.subrange(at, at + 4)[2]);
    assert(s[at + 3] == s.subrange(at, at + 4)[3]);
}

/// Reading the frame of a message, with any bytes behind it, gives the
/// message back and the length of the frame.
pub proof fn lemma_frame_round_trip(m: MessageView, rest: Seq<u8>, limit: u32)
    requires
        payload(m).len() <= limit,
    ensures
        frame_in(frame(m) + rest, limit) == Ok::<Option<(MessageView, int)>, WireError>(
            Some((m, frame(m).len() as int)),
        ),
{
    let s = frame(m) + rest;
    let p = payload(m);
    let n = p.len() as int;
    assert(s.subrange(0, 4) =~= be32(n as u32));
    lemma_be32_round_trip(n as u32, s, 0);
    assert forall|i: int| 0 <= i < n implies s[4 + i] == p[i] by {}
    match m {
        MessageView::Have(index) => {
            assert(s.subrange(5, 9) =~= be32(index));
            lemma_be32_round_trip(index, s, 5);
        },
        MessageView::Bitfield(bits) => {
            assert(s.subrange(5, 4 + n) =~= bits);
        },
        MessageView::Request { index, begin, length } => {
            assert(s.subrange(5, 9) =~= be32(index));
            assert(s.subrange(9, 13) =~= be32(begin));
            assert(s.subrange(13, 17) =~= be32(length));
            lemma_be32_round_trip(index, s, 5);
            lemma_be32_round_trip(begin, s, 9);
            lemma_be32_round_trip(length, s, 13);
        },
        MessageView::Cancel { index, begin, length } => {
            assert(s.subrange(5, 9) =~= be32(index));
            assert(s.subrange(9, 13) =~= be32(begin));
            assert(s.subrange(13, 17) =~= be32(length));
            lemma_be32_round_trip(index, s, 5);
            lemma_be32_round_trip(begin, s, 9);
            lemma_be32_round_trip(length, s, 13);
        },
        MessageView::Piece { index, begin, data } => {
            assert(s.subrange(5, 9) =~= be32(index));
            assert(s.subrange(9, 13) =~= be32(begin));
            lemma_be32_round_trip(index, s, 5);
            lemma_be32_round_trip(begin, s, 9);
            assert(s.subrange(13, 4 + n) =~= data);
        },
        MessageView::Port(port) => {
            assert(s[5] == p[1]);
            assert(s[6] == p[2]);
        },
        _ => {
            if n > 0 {
                assert(s[4] == p[0]);
            }
        },
    }
    if n > 0 {
        assert(s[4] == p[0]);
    }
}

/// Appends the four bytes of `n`, most significant first.
pub fn push_be32(out: &mut Vec<u8>, n: u32)
    ensures
        final(out)@ == old(out)@ + be32(n),
{
    out.push((n / 0x100_0000) as u8);
    out.push((n / 0x1_0000 % 0x100) as u8);
    out.push((n / 0x100 % 0x100) as u8);
    out.push((n % 0x100) as u8);
    assert(final(out)@ =~= old(out)@ + be32(n));
}

/// The number that the four bytes of `input` from `at` on spell.
pub fn read_be32(input: &[u8], at: usize) -> (n: u32)
    requires
        at + 4 <= input@.len(),
    ensures
        n == from_be32(input@, at as int),
{
    (input[at] as u32) * 0x100_0000 + (input[at + 1] as u32) * 0x1_0000 + (input[at + 2] as u32)
        * 0x100 + (input[at + 3] as u32)
}

impl Message {
    /// Whether the payload of the message has a length that fits the four
    /// bytes of a frame.
    pub open spec fn fits(&self) -> bool {
        payload(self@).len() <= u32::MAX
    }

    /// The frame of the message.
    pub fn encode(&self) -> (bytes: Vec<u8>)
        requires
            self.fits(),
        ensures
            bytes@ == frame(self@),
    {
        let mut out: Vec<u8> = Vec::new();
        match self {
            Message::KeepAlive => {
                push_be32(&mut out, 0);
            },
            Message::Choke => {
                push_be32(&mut out, 1);
                out.push(0);
            },
            Message::Unchoke => {
                push_be32(&mut out, 1);
                out.push(1);
            },
            Message::Interested => {
                push_be32(&mut out, 1);
                out.push(2);
            },
            Message::NotInterested => {
                push_be32(&mut out, 1);
                out.push(3);
            },
            Message::Have(index) => {
                push_be32(&mut out, 5);
                out.push(4);
                push_be32(&mut out, *index);
            },
            Message::Bitfield(bits) => {
                push_be32(&mut out, (bits.len() + 1) as u32);
                out.push(5);
                let ghost head = out@;
                out.extend_from_slice(bits.as_slice());
                assert(out@ =~= head + bits@);
            },
            Message::Request { index, begin, length } => {
                push_be32(&mut out, 13);
                out.push(6);
                push_be32(&mut out, *index);
                push_be32(&mut out, *begin);
                push_be32(&mut out, *length);
            },
            Message::Piece { index, begin, data } => {
                push_be32(&mut out, (data.len() + 9) as u32);
                out.push(7);
                push_be32(&mut out, *index);
                push_be32(&mut out, *begin);
                let ghost head = out@;
                out.extend_from_slice(data.as_slice());
                assert(out@ =~= head + data@);
            },
            Message::Cancel { index, begin, length } => {
                push_be32(&mut out, 13);
                out.push(8);
                push_be32(&mut out, *index);
                push_be32(&mut out, *begin);
                push_be32(&mut out, *length);
            },
            Message::Port(port) => {
                push_be32(&mut out, 3);
                out.push(9);
                out.push((*port / 0x100) as u8);
                out.push((*port % 0x100) as u8);
            },
        }
        assert(out@ =~= frame(self@));
        out
    }

    /// Reads a frame from the start of `input`, admitting payloads of up to
    /// `limit` bytes: the message and the number of bytes that its frame
    /// takes, or nothing while `input` does not hold the whole frame.
    pub fn decode(input: &[u8], limit: u32) -> (read: Result<Option<(Message, usize)>, WireError>)
        ensures
            match read {
                Ok(Some((m, taken))) => frame_in(input@, limit) == Ok::<
                    Option<(MessageView, int)>,
                    WireError,
                >(Some((m@, taken as int))) && taken <= input@.len(),
                Ok(None) => frame_in(input@, limit) == Ok::<Option<(MessageView, int)>, WireError>(
                    None,
                ),
                Err(e) => frame_in(input@, limit) == Err::<Option<(MessageView, int)>, WireError>(
                    e,
                ),
            },
    {
        if input.len() < 4 {
            return Ok(None);
        }
        let n = read_be32(input, 0);
        if n > limit {
            return Err(WireError::TooLong);
        }
        if ((input.len() - 4) as u64) < n as u64 {
            return Ok(None);
        }
        let n = n as usize;
        let taken = 4 + n;
        if n == 0 {
            return Ok(Some((Message::KeepAlive, taken)));
        }
        let id = input[4];
        if id > 9 {
            return Err(WireError::UnknownId);
        }
        if id <= 3 {
            if n != 1 {
                return Err(WireError::BadLength);
            }
            let message = if id == 0 {
                Message::Choke
            } else if id == 1 {
                Message::Unchoke
            } else if id == 2 {
                Message::Interested
            } else {
                Message::NotInterested
            };
            return Ok(Some((message, taken)));
        }
        if id == 4 {
            if n != 5 {
                return Err(WireError::BadLength);
            }
            return Ok(Some((Message::Have(read_be32(input, 5)), taken)));
        }
        if id == 5 {
            let bits = vstd::slice::slice_to_vec(vstd::slice::slice_subrange(input, 5, taken));
            return Ok(Some((Message::Bitfield(bits), taken)));
        }
        if id == 6 || id == 8 {
            if n != 13 {
                return Err(WireError::BadLength);
            }
            let index = read_be32(input, 5);
            let begin = read_be32(input, 9);
            let length = read_be32(input, 13);
            let message = if id == 6 {
                Message::Request { index, begin, length }
            } else {
                Message::Cancel { index, begin, length }
            };
            return Ok(Some((message, taken)));
        }
        if id == 7 {
            if n < 9 {
                return Err(WireError::BadLength);
            }
            let index = read_be32(input, 5);
            let begin = read_be32(input, 9);
            let data = vstd::slice::slice_to_vec(vstd::slice::slice_subrange(input, 13, taken));
            return Ok(Some((Message::Piece { index, begin, data }, taken)));
        }
        if n != 3 {
            return Err(WireError::BadLength);
        }
        let port: u16 = (input[5] as u16) * 0x100 + (input[6] as u16);
        Ok(Some((Message::Port(port), taken)))
    }
}

/// The weight of bit `j` of a byte, the most significant bit being bit 0.
pub open spec fn bit_weight(j: int) -> int {
    if j == 0 {
        128
    } else if j == 1 {
        64
    } else if j == 2 {
        32
    } else if j == 3 {
        16
    } else if j == 4 {
        8
    } else if j == 5 {
        4
    } else if j == 6 {
        2
    } else {
        1
    }
}

/// Whether bit `i` of a packed bitfield is set: the bits are counted from
/// the most significant bit of the first byte on.
pub open spec fn bit_of(packed: Seq<u8>, i: int) -> bool {
    packed[i / 8] as int / bit_weight(i % 8) % 2 == 1
}

/// What unpacking a bitfield for `pieces` pieces gives: one byte for each
/// piece, 1 where the bit of the piece is set and 0 where it is not; an
/// error when the bitfield does not have one bit for each piece, padded to
/// whole bytes, or when a bit behind the last piece is set.
pub open spec fn unpacked(packed: Seq<u8>, pieces: int) -> Result<Seq<u8>, WireError> {
    if packed.len() != (pieces + 7) / 8 || exists|i: int|
        pieces <= i < 8 * packed.len() && bit_of(packed, i) {
        Err(WireError::BadBitfield)
    } else {
        Ok(
            Seq::new(
                pieces as nat,
                |i: int|
                    if bit_of(packed, i) {
                        1u8
                    } else {
                        0u8
                    },
            ),
        )
    }
}

/// Whether bit `i` of `packed` is set.
fn bit_at(packed: &[u8], i: u64) -> (set: bool)
    requires
        i / 8 < packed@.len(),
    ensures
        set == bit_of(packed@, i as int),
{
    let j = i % 8;
    let weight: u8 = if j == 0 {
        128
    } else if j == 1 {
        64
    } else if j == 2 {
        32
    } else if j == 3 {
        16
    } else if j == 4 {
        8
    } else if j == 5 {
        4
    } else if j == 6 {
        2
    } else {
        1
    };
    packed[(i / 8) as usize] / weight % 2 == 1
}

/// Unpacks the bitfield that a peer has sent, for a torrent of `pieces`
/// pieces.
pub fn unpack_bitfield(packed: &[u8], pieces: usize) -> (bits: Result<Vec<u8>, WireError>)
    requires
        pieces <= u32::MAX,
    ensures
        match bits {
            Ok(b) => unpacked(packed@, pieces as int) == Ok::<Seq<u8>, WireError>(b@),
            Err(e) => unpacked(packed@, pieces as int) == Err::<Seq<u8>, WireError>(e),
        },
{
    let count: u64 = pieces as u64;
    if packed.len() as u64 != (count + 7) / 8 {
        return Err(WireError::BadBitfield);
    }
    let mut bits: Vec<u8> = Vec::new();
    let mut i: u64 = 0;
    while i < count
        invariant
            i <= count <= u32::MAX,
            count == pieces,
            packed@.len() == (pieces + 7) / 8,
            bits@.len() == i,
            forall|j: int|
                0 <= j < i ==> #[trigger] bits@[j] == if bit_of(packed@, j) {
                    1u8
                } else {
                    0u8
                },
        decreases count - i,
    {
        if bit_at(packed, i) {
            bits.push(1);
        } else {
            bits.push(0);
        }
        i += 1;
    }
    let end: u64 = 8 * (packed.len() as u64);
    while i < end
        invariant
            pieces <= i <= end,
            end == 8 * packed@.len(),
            pieces <= u32::MAX,
            packed@.len() == (pieces + 7) / 8,
            forall|j: int| pieces <= j < i ==> !bit_of(packed@, j),
        decreases end - i,
    {
        if bit_at(packed, i) {
            return Err(WireError::BadBitfield);
        }
        i += 1;
    }
    assert(bits@ =~= unpacked(packed@, pieces as int)->Ok_0);
    Ok(bits)
}

} // verus!
