//! A leech-side BitTorrent engine: the bencoding codec, the metainfo
//! descriptor, the tracker exchange, the peer wire protocol and the piece
//! scheduler, each with machine-checked contracts.

pub mod ascii;
pub mod bencoding;
pub mod client;
pub mod protocol;
pub mod search;
pub mod torrent;
pub mod tracker;
pub mod trusted;
