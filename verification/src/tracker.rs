//! The exchange with the tracker: the announce URL and the reply.

use crate::ascii::{ascii, ascii_bytes, ascii_string, chars_of, is_ascii_bytes};
use crate::bencoding::decoder::{decode, decoded, DecodeError};
use crate::bencoding::text::{is_digit, lemma_nat_text_shape, nat_text, push_decimal};
use crate::bencoding::{Bencode, Value};
use crate::torrent::Torrent;
use crate::trusted::random_in;
use vstd::prelude::*;
use vstd::utf8::encode_utf8;

verus! {

/// The text of an IPv4 address: four decimal numbers with dots between
/// them.
pub open spec fn ip_text(a: u8, b: u8, c: u8, d: u8) -> Seq<u8> {
    nat_text(a as nat) + seq![0x2eu8] + nat_text(b as nat) + seq![0x2eu8] + nat_text(c as nat)
        + seq![0x2eu8] + nat_text(d as nat)
}

/// Entry `i` of a compact peer list: the address in the first four bytes of
/// the entry, as text, and the port in its last two, most significant byte
/// first.
pub open spec fn peer_at(data: Seq<u8>, i: int) -> (Seq<char>, u16) {
    (
        chars_of(ip_text(data[6 * i], data[6 * i + 1], data[6 * i + 2], data[6 * i + 3])),
        (data[6 * i + 4] * 256 + data[6 * i + 5]) as u16,
    )
}

/// Whether `peers` are the entries of the compact peer list `data`.
pub open spec fn peers_of(peers: Seq<(String, u16)>, data: Seq<u8>) -> bool {
    &&& peers.len() == data.len() / 6
    &&& forall|i: int|
        0 <= i < peers.len() ==> ((#[trigger] peers[i]).0@, peers[i].1) == peer_at(data, i)
}

/// The text of a number is ASCII.
pub proof fn lemma_nat_text_ascii(n: nat)
    ensures
        is_ascii_bytes(nat_text(n)),
{
    lemma_nat_text_shape(n);
    assert forall|i: int| 0 <= i < nat_text(n).len() implies #[trigger] nat_text(n)[i] < 128 by {
        assert(is_digit(nat_text(n)[i]));
    }
}

/// Why the reply of a tracker is of no use.
#[derive(Debug, Clone, PartialEq, Eq)]
pub enum TrackerError {
    /// The reply is not bencoded.
    Decode(DecodeError),
    /// The reply is no dictionary.
    NotADict,
    /// The tracker gave a reason for failure: it is carried here.
    Failure(Vec<u8>),
    /// There is no integer under `interval` that fits 32 bits without sign.
    NoInterval,
    /// There is no byte string under `peers`.
    NoPeers,
    /// The length of the peer list is no multiple of 6.
    BadPeers,
}

/// The model of a `TrackerError`.
pub enum TrackerFault {
    Decode(DecodeError),
    NotADict,
    Failure(Seq<u8>),
    NoInterval,
    NoPeers,
    BadPeers,
}

impl View for TrackerError {
    type V = TrackerFault;

    open spec fn view(&self) -> TrackerFault {
        match self {
            TrackerError::Decode(e) => TrackerFault::Decode(*e),
            TrackerError::NotADict => TrackerFault::NotADict,
            TrackerError::Failure(reason) => TrackerFault::Failure(reason@),
            TrackerError::NoInterval => TrackerFault::NoInterval,
            TrackerError::NoPeers => TrackerFault::NoPeers,
            TrackerError::BadPeers => TrackerFault::BadPeers,
        }
    }
}

/// What a tracker says in a reply that is no failure.
pub struct TrackerResponse {
    pub failure: String,
    pub interval: u32,
    pub complete: u64,
    pub incomplete: u64,
    pub peers: Vec<(String, u16)>,
}

/// The fields of a reply.
pub struct Reply {
    pub interval: u32,
    pub complete: u64,
    pub incomplete: u64,
    pub peers: Seq<u8>,
}

/// The number under `key`, when there is one and it is not negative; zero
/// otherwise.
pub open spec fn count_under(v: Value, key: Seq<u8>) -> u64 {
    match v.get(key) {
        Some(Value::Int(n)) => if n >= 0 {
            n as u64
        } else {
            0
        },
        _ => 0,
    }
}

/// The fields of the reply `v`, or the first requirement that it does not
/// meet.
pub open spec fn reply_of(v: Value) -> Result<Reply, TrackerFault> {
    let failure = v.get(ascii("failure reason"@));
    let interval = v.get(ascii("interval"@));
    let peers = v.get(ascii("peers"@));
    if !(v is Dict) {
        Err(TrackerFault::NotADict)
    } else if failure is Some && failure->0 is Bytes {
        Err(TrackerFault::Failure(failure->0->Bytes_0))
    } else if !(interval matches Some(Value::Int(n)) && 0 <= n <= u32::MAX) {
        Err(TrackerFault::NoInterval)
    } else if !(peers is Some && peers->0 is Bytes) {
        Err(TrackerFault::NoPeers)
    } else if peers->0->Bytes_0.len() % 6 != 0 {
        Err(TrackerFault::BadPeers)
    } else {
        Ok(
            Reply {
                interval: interval->0->Int_0 as u32,
                complete: count_under(v, ascii("complete"@)),
                incomplete: count_under(v, ascii("incomplete"@)),
                peers: peers->0->Bytes_0,
            },
        )
    }
}

/// The fields of the reply that the bytes `s` start with, or why there are
/// none.
pub open spec fn reply_in(s: Seq<u8>) -> Result<Reply, TrackerFault> {
    match decoded(s) {
        Err(e) => Err(TrackerFault::Decode(e)),
        Ok((v, _)) => reply_of(v),
    }
}

/// The number under `key`, when there is one and it is not negative; zero
/// otherwise.
fn read_count(bencode: &Bencode, key: &[u8]) -> (n: u64)
    ensures
        n == count_under(bencode@, key@),
{
    match bencode.get(key) {
        Some(Bencode::Int(i)) => {
            if *i >= 0 {
                *i as u64
            } else {
                0
            }
        },
        _ => 0,
    }
}

impl TrackerResponse {
    /// Whether the response holds the fields `reply`.
    pub open spec fn holds(&self, reply: Reply) -> bool {
        &&& self.failure@.len() == 0
        &&& self.interval == reply.interval
        &&& self.complete == reply.complete
        &&& self.incomplete == reply.incomplete
        &&& peers_of(self.peers@, reply.peers)
    }

    /// Reads a compact peer list: six bytes for each peer, four of address
    /// and two of port.
    pub fn parse_peers(data: &[u8]) -> (parsed: Result<Vec<(String, u16)>, TrackerError>)
        ensures
            match parsed {
                Ok(peers) => data@.len() % 6 == 0 && peers_of(peers@, data@),
                Err(e) => data@.len() % 6 != 0 && e == TrackerError::BadPeers,
            },
    {
        if data.len() % 6 != 0 {
            return Err(TrackerError::BadPeers);
        }
        let count = data.len() / 6;
        let mut peers: Vec<(String, u16)> = Vec::new();
        let mut i: usize = 0;
        while i < count
            invariant
                i <= count,
                count == data@.len() / 6,
                data@.len() % 6 == 0,
                peers@.len() == i,
                forall|j: int|
                    0 <= j < i ==> ((#[trigger] peers@[j]).0@, peers@[j].1) == peer_at(data@, j),
            decreases count - i,
        {
            let len: usize = data.len();
            assert(6 * i + 6 <= len);
            let at = 6 * i;
            let mut text: Vec<u8> = Vec::new();
            push_decimal(&mut text, data[at] as u64);
            text.push(0x2e);
            push_decimal(&mut text, data[at + 1] as u64);
            text.push(0x2e);
            push_decimal(&mut text, data[at + 2] as u64);
            text.push(0x2e);
            push_decimal(&mut text, data[at + 3] as u64);
            proof {
                let ip = ip_text(data@[at as int], data@[at + 1], data@[at + 2], data@[at + 3]);
                assert(text@ =~= ip);
                lemma_nat_text_ascii(data@[at as int] as nat);
                lemma_nat_text_ascii(data@[at + 1] as nat);
                lemma_nat_text_ascii(data@[at + 2] as nat);
                lemma_nat_text_ascii(data@[at + 3] as nat);
            }
            let port: u16 = (data[at + 4] as u16) * 256 + (data[at + 5] as u16);
            peers.push((ascii_string(text), port));
            i += 1;
        }
        Ok(peers)
    }

    /// Reads the reply of a tracker.
    ///
    /// The reply must be a bencoded dictionary. A byte string under
    /// `failure reason` makes the reply an error that carries it. Else
    /// `interval` and `peers` must be there; `complete` and `incomplete`
    /// count as zero when they are not.
    pub fn new(bytes: &[u8]) -> (parsed: Result<TrackerResponse, TrackerError>)
        ensures
            match parsed {
                Ok(response) => reply_in(bytes@) is Ok && response.holds(reply_in(bytes@)->Ok_0),
                Err(e) => reply_in(bytes@) == Err::<Reply, TrackerFault>(e@),
            },
    {
        proof {
            reveal_strlit("failure reason");
            reveal_strlit("interval");
            reveal_strlit("complete");
            reveal_strlit("incomplete");
            reveal_strlit("peers");
        }
        let bencode = match decode(bytes) {
            Ok((bencode, _)) => bencode,
            Err(e) => {
                return Err(TrackerError::Decode(e));
            },
        };
        match &bencode {
            Bencode::Dict(_) => {},
            _ => {
                return Err(TrackerError::NotADict);
            },
        }
        match bencode.get(ascii_bytes("failure reason")) {
            Some(Bencode::Bytes(reason)) => {
                return Err(
                    TrackerError::Failure(vstd::slice::slice_to_vec(reason.as_slice())),
                );
            },
            _ => {},
        }
        let interval: u32 = match bencode.get(ascii_bytes("interval")) {
            Some(Bencode::Int(i)) => {
                if *i < 0 || *i > 0xffff_ffff {
                    return Err(TrackerError::NoInterval);
                }
                *i as u32
            },
            _ => {
                return Err(TrackerError::NoInterval);
            },
        };
        let complete = read_count(&bencode, ascii_bytes("complete"));
        let incomplete = read_count(&bencode, ascii_bytes("incomplete"));
        let peers = match bencode.get(ascii_bytes("peers")) {
            Some(Bencode::Bytes(raw)) => match TrackerResponse::parse_peers(raw.as_slice()) {
                Ok(peers) => peers,
                Err(e) => {
                    return Err(TrackerError::BadPeers);
                },
            },
            _ => {
                return Err(TrackerError::NoPeers);
            },
        };
        Ok(TrackerResponse { failure: String::new(), interval, complete, incomplete, peers })
    }
}

/// Whether `b` may stand in a URL as it is: a letter, a digit, `-`, `.`,
/// `_` or `~`.
pub open spec fn is_unreserved(b: u8) -> bool {
    ||| 0x30 <= b <= 0x39
    ||| 0x41 <= b <= 0x5a
    ||| 0x61 <= b <= 0x7a
    ||| b == 0x2d
    ||| b == 0x2e
    ||| b == 0x5f
    ||| b == 0x7e
}

/// The upper-case hexadecimal digit for `n`, which is below 16.
pub open spec fn upper_hex(n: int) -> u8 {
    if n < 10 {
        (0x30 + n) as u8
    } else {
        (0x41 + n - 10) as u8
    }
}

/// One byte as it stands in a URL: itself when it is unreserved, else a
/// percent sign and its two hexadecimal digits.
pub open spec fn percent_byte(b: u8) -> Seq<u8> {
    if is_unreserved(b) {
        seq![b]
    } else {
        seq![0x25u8, upper_hex(b as int / 16), upper_hex(b as int % 16)]
    }
}

/// The first `n` bytes of `bytes` as they stand in a URL.
pub open spec fn percent_upto(bytes: Seq<u8>, n: int) -> Seq<u8>
    decreases n,
{
    if n <= 0 {
        Seq::empty()
    } else {
        percent_upto(bytes, n - 1) + percent_byte(bytes[n - 1])
    }
}

/// `bytes` as they stand in a URL.
pub open spec fn percent_encoded(bytes: Seq<u8>) -> Seq<u8> {
    percent_upto(bytes, bytes.len() as int)
}

/// Percent-encoded bytes are ASCII.
pub proof fn lemma_percent_ascii(bytes: Seq<u8>, n: int)
    requires
        0 <= n <= bytes.len(),
    ensures
        is_ascii_bytes(percent_upto(bytes, n)),
    decreases n,
{
    if n > 0 {
        lemma_percent_ascii(bytes, n - 1);
        let head = percent_upto(bytes, n - 1);
        let tail = percent_byte(bytes[n - 1]);
        assert forall|i: int| 0 <= i < (head + tail).len() implies #[trigger] (head + tail)[i]
            < 128 by {
            if i < head.len() {
                assert(head[i] < 128);
            } else {
                assert((head + tail)[i] == tail[i - head.len()]);
            }
        }
    }
}

/// The upper-case hexadecimal digit for `n`.
fn upper_hex_digit(n: u8) -> (digit: u8)
    requires
        n < 16,
    ensures
        digit == upper_hex(n as int),
{
    if n < 10 {
        0x30 + n
    } else {
        0x41 + (n - 10)
    }
}

/// Appends `bytes` to `out` as they stand in a URL.
pub fn push_percent_encoded(out: &mut Vec<u8>, bytes: &[u8])
    ensures
        final(out)@ == old(out)@ + percent_encoded(bytes@),
{
    let ghost start = out@;
    let mut k: usize = 0;
    while k < bytes.len()
        invariant
            k <= bytes.len(),
            out@ == start + percent_upto(bytes@, k as int),
        decreases bytes.len() - k,
    {
        let b = bytes[k];
        let plain = (0x30 <= b && b <= 0x39) || (0x41 <= b && b <= 0x5a) || (0x61 <= b && b
            <= 0x7a) || b == 0x2d || b == 0x2e || b == 0x5f || b == 0x7e;
        if plain {
            out.push(b);
        } else {
            out.push(0x25);
            out.push(upper_hex_digit(b / 16));
            out.push(upper_hex_digit(b % 16));
        }
        assert(out@ =~= start + percent_upto(bytes@, k + 1));
        k += 1;
    }
    assert(out@ =~= start + percent_encoded(bytes@));
}

/// The query of an announce, from the question mark on.
///
/// `left` is the total size less what has been downloaded; `compact` is
/// always 1; the event `started` is named in the first announce only.
pub open spec fn announce_query(
    info_hash: Seq<u8>,
    peer_id: Seq<u8>,
    port: u16,
    uploaded: u64,
    downloaded: u64,
    left: u64,
    first: bool,
) -> Seq<u8> {
    ascii("?info_hash="@) + percent_encoded(info_hash) + ascii("&peer_id="@) + percent_encoded(
        peer_id,
    ) + ascii("&port="@) + nat_text(port as nat) + ascii("&uploaded="@) + nat_text(
        uploaded as nat,
    ) + ascii("&downloaded="@) + nat_text(downloaded as nat) + ascii("&left="@) + nat_text(
        left as nat,
    ) + ascii("&compact=1"@) + (if first {
        ascii("&event=started"@)
    } else {
        Seq::empty()
    })
}

/// Appends the ASCII text `text` to `out`.
fn push_text(out: &mut Vec<u8>, text: &str)
    requires
        text.is_ascii(),
    ensures
        final(out)@ == old(out)@ + ascii(text@),
        is_ascii_bytes(ascii(text@)),
{
    let ghost start = out@;
    out.extend_from_slice(ascii_bytes(text));
    proof {
        assert(out@ =~= start + ascii(text@));
        vstd::utf8::is_ascii_chars_nat_bound(text@);
        assert forall|i: int| 0 <= i < ascii(text@).len() implies #[trigger] ascii(text@)[i]
            < 128 by {
            assert((text@[i] as nat) < 128);
        }
    }
}

/// The URL of an announce: the announce URL of the torrent, followed by
/// the query that tells the tracker the torrent, the peer, its port and how
/// far the download has come.
pub fn announce_url(
    torrent: &Torrent,
    peer_id: &String,
    port: u16,
    first: bool,
    uploaded: u64,
    downloaded: u64,
) -> (url: String)
    requires
        downloaded <= torrent.total_size,
    ensures
        url@ == torrent.announce@ + chars_of(
            announce_query(
                torrent.info_hash@,
                encode_utf8(peer_id@),
                port,
                uploaded,
                downloaded,
                (torrent.total_size - downloaded) as u64,
                first,
            ),
        ),
{
    proof {
        reveal_strlit("?info_hash=");
        reveal_strlit("&peer_id=");
        reveal_strlit("&port=");
        reveal_strlit("&uploaded=");
        reveal_strlit("&downloaded=");
        reveal_strlit("&left=");
        reveal_strlit("&compact=1");
        reveal_strlit("&event=started");
    }
    let left = torrent.total_size - downloaded;
    let id = peer_id.as_str().as_bytes();
    let mut query: Vec<u8> = Vec::new();
    push_text(&mut query, "?info_hash=");
    push_percent_encoded(&mut query, torrent.info_hash.as_slice());
    push_text(&mut query, "&peer_id=");
    push_percent_encoded(&mut query, id);
    push_text(&mut query, "&port=");
    push_decimal(&mut query, port as u64);
    push_text(&mut query, "&uploaded=");
    push_decimal(&mut query, uploaded);
    push_text(&mut query, "&downloaded=");
    push_decimal(&mut query, downloaded);
    push_text(&mut query, "&left=");
    push_decimal(&mut query, left);
    push_text(&mut query, "&compact=1");
    if first {
        push_text(&mut query, "&event=started");
    }
    proof {
        let spec = announce_query(
            torrent.info_hash@,
            encode_utf8(peer_id@),
            port,
            uploaded,
            downloaded,
            left,
            first,
        );
        assert(query@ =~= spec);
        lemma_percent_ascii(torrent.info_hash@, torrent.info_hash@.len() as int);
        lemma_percent_ascii(encode_utf8(peer_id@), encode_utf8(peer_id@).len() as int);
        lemma_nat_text_ascii(port as nat);
        lemma_nat_text_ascii(uploaded as nat);
        lemma_nat_text_ascii(downloaded as nat);
        lemma_nat_text_ascii(left as nat);
        assert(is_ascii_bytes(query@));
    }
    let text = ascii_string(query);
    let mut url = torrent.announce.clone();
    url.append(text.as_str());
    url
}

/// The prefix of the peer ids of this client.
pub open spec fn client_code() -> Seq<u8> {
    ascii("-MY6969-"@)
}

/// The peer id with the digits of `digits` behind the client code.
pub fn peer_id_from(digits: u64) -> (id: String)
    requires
        100_000_000_000 <= digits <= 999_999_999_999,
    ensures
        id@ == chars_of(client_code() + nat_text(digits as nat)),
        id@.len() == 20,
{
    proof {
        reveal_strlit("-MY6969-");
    }
    let mut bytes: Vec<u8> = Vec::new();
    push_text(&mut bytes, "-MY6969-");
    push_decimal(&mut bytes, digits);
    proof {
        lemma_nat_text_ascii(digits as nat);
        lemma_twelve_digits(digits as nat);
        assert(bytes@ =~= client_code() + nat_text(digits as nat));
    }
    ascii_string(bytes)
}

/// A number of twelve digits has a text of twelve bytes.
pub proof fn lemma_twelve_digits(n: nat)
    requires
        100_000_000_000 <= n <= 999_999_999_999,
    ensures
        nat_text(n).len() == 12,
{
    reveal_with_fuel(nat_text, 13);
}

/// A fresh peer id: the client code and twelve digits drawn at random, the
/// first of them not zero.
pub fn calculate_peer_id() -> (id: String)
    ensures
        id@.len() == 20,
        exists|digits: u64|
            100_000_000_000 <= digits <= 999_999_999_999 && id@ == chars_of(
                client_code() + #[trigger] nat_text(digits as nat),
            ),
{
    let digits = random_in(100_000_000_000, 999_999_999_999);
    peer_id_from(digits)
}

} // verus!
