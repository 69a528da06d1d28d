//! The metainfo descriptor of a single-file torrent.

use crate::ascii::{ascii, ascii_bytes};
use crate::bencoding::encoder::encode;
use crate::bencoding::{Bencode, Value};
use crate::trusted::{sha1, sha1_digest, string_from_utf8};
use vstd::prelude::*;
use vstd::utf8::{decode_utf8, valid_utf8};

verus! {

/// One file of the content.
#[derive(Debug)]
pub struct File {
    pub name: String,
    pub length: u64,
}

/// What a metainfo file says of the content and of where to announce.
pub struct Torrent {
    pub info_hash: Vec<u8>,
    pub announce: String,
    pub multi_file: bool,
    pub piece_length: u32,
    pub total_size: u64,
    pub pieces: Vec<u8>,
    pub output_file: String,
    pub files: Vec<File>,
}

impl Torrent {
    /// Whether the descriptor is one that a metainfo file can give: a
    /// 20-byte info-hash, a positive piece length, and 20 bytes of hash for
    /// each piece.
    pub open spec fn wf(&self) -> bool {
        &&& self.info_hash@.len() == 20
        &&& self.piece_length > 0
        &&& self.pieces@.len() % 20 == 0
    }

    /// The number of pieces.
    pub open spec fn piece_count(&self) -> nat {
        self.pieces@.len() / 20
    }

    /// The SHA-1 digest that piece `i` must have.
    pub open spec fn piece_hash(&self, i: int) -> Seq<u8> {
        self.pieces@.subrange(20 * i, 20 * i + 20)
    }
}

/// Why a bencoded value is no metainfo of a single-file torrent.
#[derive(Debug, Clone, Copy, PartialEq, Eq)]
pub enum MetainfoError {
    /// The value is no dictionary.
    NotADict,
    /// There is no byte string under `announce`.
    NoAnnounce,
    /// The announce URL is not valid UTF-8.
    AnnounceNotText,
    /// There is no dictionary under `info`.
    NoInfo,
    /// There is no byte string under `name`.
    NoName,
    /// The name is not valid UTF-8.
    NameNotText,
    /// There is no non-negative integer under `length`.
    NoLength,
    /// There is no integer under `piece length` that is positive and fits
    /// 32 bits.
    NoPieceLength,
    /// There is no byte string under `pieces` whose length is a multiple of
    /// 20.
    NoPieces,
}

/// The fields that a metainfo value holds.
pub struct Metainfo {
    pub announce: Seq<u8>,
    pub info: Value,
    pub name: Seq<u8>,
    pub length: int,
    pub piece_length: int,
    pub pieces: Seq<u8>,
}

/// The fields of the `info` dictionary, or the first requirement that it
/// does not meet.
pub open spec fn info_fields(announce: Seq<u8>, info: Value) -> Result<Metainfo, MetainfoError> {
    let name = info.get(ascii("name"@));
    let length = info.get(ascii("length"@));
    let piece_length = info.get(ascii("piece length"@));
    let pieces = info.get(ascii("pieces"@));
    if !(name matches Some(Value::Bytes(_))) {
        Err(MetainfoError::NoName)
    } else if !valid_utf8(name->0->Bytes_0) {
        Err(MetainfoError::NameNotText)
    } else if !(length matches Some(Value::Int(n)) && n >= 0) {
        Err(MetainfoError::NoLength)
    } else if !(piece_length matches Some(Value::Int(n)) && 0 < n <= u32::MAX) {
        Err(MetainfoError::NoPieceLength)
    } else if !(pieces matches Some(Value::Bytes(p)) && p.len() % 20 == 0) {
        Err(MetainfoError::NoPieces)
    } else {
        Ok(
            Metainfo {
                announce,
                info,
                name: name->0->Bytes_0,
                length: length->0->Int_0 as int,
                piece_length: piece_length->0->Int_0 as int,
                pieces: pieces->0->Bytes_0,
            },
        )
    }
}

/// The fields of the metainfo value `v`, or the first requirement that it
/// does not meet.
pub open spec fn metainfo(v: Value) -> Result<Metainfo, MetainfoError> {
    let announce = v.get(ascii("announce"@));
    let info = v.get(ascii("info"@));
    if !(v is Dict) {
        Err(MetainfoError::NotADict)
    } else if !(announce matches Some(Value::Bytes(_))) {
        Err(MetainfoError::NoAnnounce)
    } else if !valid_utf8(announce->0->Bytes_0) {
        Err(MetainfoError::AnnounceNotText)
    } else if !(info matches Some(Value::Dict(_))) {
        Err(MetainfoError::NoInfo)
    } else {
        info_fields(announce->0->Bytes_0, info->0)
    }
}

impl Torrent {
    /// Whether the descriptor holds what the metainfo `m` says.
    pub open spec fn describes(&self, m: Metainfo) -> bool {
        &&& self.info_hash@ == sha1_digest(m.info.encoding())
        &&& self.announce@ == decode_utf8(m.announce)
        &&& !self.multi_file
        &&& self.piece_length == m.piece_length
        &&& self.total_size == m.length
        &&& self.pieces@ == m.pieces
        &&& self.output_file@ == decode_utf8(m.name)
        &&& self.files@.len() == 1
        &&& self.files@[0].name@ == decode_utf8(m.name)
        &&& self.files@[0].length == m.length
    }
}

/// The info-hash of a torrent: the SHA-1 digest of the encoding of its
/// `info` dictionary.
pub fn get_sha1_info_hash(bencode: &Bencode) -> (hash: Result<Vec<u8>, String>)
    requires
        bencode.wf(),
    ensures
        hash is Ok,
        hash->Ok_0@ == sha1_digest(bencode@.encoding()),
        hash->Ok_0@.len() == 20,
{
    let encoded = encode(bencode);
    Ok(sha1(encoded.as_slice()))
}

/// A copy of `bytes`.
fn copy_bytes(bytes: &Vec<u8>) -> (copy: Vec<u8>)
    ensures
        copy@ == bytes@,
{
    vstd::slice::slice_to_vec(bytes.as_slice())
}

/// Builds the descriptor of a single-file torrent from a decoded metainfo
/// file.
pub fn build_torrent(bencode: &Bencode) -> (built: Result<Torrent, MetainfoError>)
    requires
        bencode.wf(),
    ensures
        match built {
            Ok(torrent) => metainfo(bencode@) is Ok && torrent.describes(metainfo(bencode@)->Ok_0)
                && torrent.wf(),
            Err(e) => metainfo(bencode@) == Err::<Metainfo, MetainfoError>(e),
        },
{
    proof {
        reveal_strlit("announce");
        reveal_strlit("info");
        reveal_strlit("name");
        reveal_strlit("length");
        reveal_strlit("piece length");
        reveal_strlit("pieces");
    }
    match bencode {
        Bencode::Dict(_) => {},
        _ => {
            return Err(MetainfoError::NotADict);
        },
    }
    let announce = match bencode.get(ascii_bytes("announce")) {
        Some(Bencode::Bytes(b)) => match string_from_utf8(copy_bytes(b)) {
            Some(text) => text,
            None => {
                return Err(MetainfoError::AnnounceNotText);
            },
        },
        _ => {
            return Err(MetainfoError::NoAnnounce);
        },
    };
    let info = match bencode.get(ascii_bytes("info")) {
        Some(info) => match info {
            Bencode::Dict(_) => info,
            _ => {
                return Err(MetainfoError::NoInfo);
            },
        },
        None => {
            return Err(MetainfoError::NoInfo);
        },
    };
    let name = match info.get(ascii_bytes("name")) {
        Some(Bencode::Bytes(b)) => match string_from_utf8(copy_bytes(b)) {
            Some(text) => text,
            None => {
                return Err(MetainfoError::NameNotText);
            },
        },
        _ => {
            return Err(MetainfoError::NoName);
        },
    };
    let length: u64 = match info.get(ascii_bytes("length")) {
        Some(Bencode::Int(i)) => {
            if *i < 0 {
                return Err(MetainfoError::NoLength);
            }
            *i as u64
        },
        _ => {
            return Err(MetainfoError::NoLength);
        },
    };
    let piece_length: u32 = match info.get(ascii_bytes("piece length")) {
        Some(Bencode::Int(i)) => {
            if *i <= 0 || *i > 0xffff_ffff {
                return Err(MetainfoError::NoPieceLength);
            }
            *i as u32
        },
        _ => {
            return Err(MetainfoError::NoPieceLength);
        },
    };
    let pieces = match info.get(ascii_bytes("pieces")) {
        Some(Bencode::Bytes(b)) => {
            if b.len() % 20 != 0 {
                return Err(MetainfoError::NoPieces);
            }
            copy_bytes(b)
        },
        _ => {
            return Err(MetainfoError::NoPieces);
        },
    };
    let info_hash = match get_sha1_info_hash(info) {
        Ok(hash) => hash,
        Err(_) => {
            return Err(MetainfoError::NoInfo);
        },
    };
    let file = File { name: name.clone(), length };
    let mut files: Vec<File> = Vec::new();
    files.push(file);
    Ok(
        Torrent {
            info_hash,
            announce,
            multi_file: false,
            piece_length,
            total_size: length,
            pieces,
            output_file: name,
            files,
        },
    )
}

} // verus!
