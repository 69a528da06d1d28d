use btleech::bencoding::decoder::decode;
use btleech::bencoding::Bencode;
use btleech::torrent::{build_torrent, get_sha1_info_hash, MetainfoError};
use sha1::{Digest, Sha1};

const ABC_SHA1: [u8; 20] = [
    0xa9, 0x99, 0x3e, 0x36, 0x47, 0x06, 0x81, 0x6a, 0xba, 0x3e, 0x25, 0x71, 0x78, 0x50, 0xc2,
    0x6c, 0x9c, 0xd0, 0xd8, 0x9d,
];

fn info_bytes() -> Vec<u8> {
    let mut info = b"d6:lengthi3e4:name1:a12:piece lengthi3e6:pieces20:".to_vec();
    info.extend_from_slice(&ABC_SHA1);
    info.push(b'e');
    info
}

fn metainfo_bytes() -> Vec<u8> {
    let mut bytes = b"d8:announce16:http://t.example4:info".to_vec();
    bytes.extend_from_slice(&info_bytes());
    bytes.push(b'e');
    bytes
}

fn entry(key: &str, value: Bencode) -> (Vec<u8>, Bencode) {
    (key.as_bytes().to_vec(), value)
}

fn text(value: &str) -> Bencode {
    Bencode::Bytes(value.as_bytes().to_vec())
}

fn info_with(entries: Vec<(Vec<u8>, Bencode)>) -> Bencode {
    Bencode::Dict(vec![entry("announce", text("http://t")), entry("info", Bencode::Dict(entries))])
}

#[test]
fn builds_the_descriptor_of_a_single_file_torrent() {
    let input = metainfo_bytes();
    let (value, rest) = decode(&input).unwrap();
    assert!(rest.is_empty());
    let torrent = build_torrent(&value).unwrap();
    assert_eq!(torrent.announce, "http://t.example");
    assert_eq!(torrent.output_file, "a");
    assert_eq!(torrent.piece_length, 3);
    assert_eq!(torrent.total_size, 3);
    assert_eq!(torrent.pieces, ABC_SHA1.to_vec());
    assert!(!torrent.multi_file);
    assert_eq!(torrent.files.len(), 1);
    assert_eq!(torrent.files[0].name, "a");
    assert_eq!(torrent.files[0].length, 3);
    assert_eq!(torrent.info_hash, Sha1::digest(info_bytes()).to_vec());
    assert_eq!(torrent.info_hash.len(), 20);
}

#[test]
fn the_info_hash_is_the_sha1_of_the_encoded_value() {
    let hash = get_sha1_info_hash(&Bencode::Bytes(b"abc".to_vec())).unwrap();
    assert_eq!(hash, Sha1::digest(b"3:abc").to_vec());
    let input = info_bytes();
    let (info, _) = decode(&input).unwrap();
    let first = get_sha1_info_hash(&info).unwrap();
    let second = get_sha1_info_hash(&info).unwrap();
    assert_eq!(first, second);
    assert_eq!(first, Sha1::digest(info_bytes()).to_vec());
    assert_ne!(first, info_bytes());
}

#[test]
fn the_info_hash_does_not_depend_on_the_order_of_insertion() {
    let one = Bencode::dict()
        .insert(b"name".to_vec(), text("a"))
        .insert(b"length".to_vec(), Bencode::Int(3))
        .insert(b"pieces".to_vec(), Bencode::Bytes(ABC_SHA1.to_vec()))
        .insert(b"piece length".to_vec(), Bencode::Int(3));
    let other = Bencode::dict()
        .insert(b"pieces".to_vec(), Bencode::Bytes(ABC_SHA1.to_vec()))
        .insert(b"piece length".to_vec(), Bencode::Int(3))
        .insert(b"length".to_vec(), Bencode::Int(3))
        .insert(b"name".to_vec(), text("a"));
    assert_eq!(one, other);
    assert_eq!(btleech::bencoding::encoder::encode(&one), info_bytes());
    assert_eq!(get_sha1_info_hash(&one).unwrap(), get_sha1_info_hash(&other).unwrap());
    assert_eq!(get_sha1_info_hash(&one).unwrap(), Sha1::digest(info_bytes()).to_vec());
}

#[test]
fn insert_replaces_what_stands_under_the_key() {
    let dict = Bencode::dict()
        .insert(b"b".to_vec(), Bencode::Int(1))
        .insert(b"a".to_vec(), Bencode::Int(2))
        .insert(b"b".to_vec(), Bencode::Int(3));
    assert_eq!(
        dict,
        Bencode::Dict(vec![entry("a", Bencode::Int(2)), entry("b", Bencode::Int(3))])
    );
    assert_eq!(Bencode::Int(1).insert(b"a".to_vec(), Bencode::Int(2)), Bencode::Int(1));
}

#[test]
fn metainfo_that_lacks_something() {
    assert_eq!(build_torrent(&Bencode::Int(1)).err(), Some(MetainfoError::NotADict));
    assert_eq!(build_torrent(&Bencode::Dict(vec![])).err(), Some(MetainfoError::NoAnnounce));
    assert_eq!(
        build_torrent(&Bencode::Dict(vec![entry("announce", Bencode::Int(1))])).err(),
        Some(MetainfoError::NoAnnounce)
    );
    assert_eq!(
        build_torrent(&Bencode::Dict(vec![entry("announce", Bencode::Bytes(vec![0xff]))])).err(),
        Some(MetainfoError::AnnounceNotText)
    );
    assert_eq!(
        build_torrent(&Bencode::Dict(vec![entry("announce", text("http://t"))])).err(),
        Some(MetainfoError::NoInfo)
    );
    assert_eq!(
        build_torrent(&Bencode::Dict(vec![
            entry("announce", text("http://t")),
            entry("info", Bencode::List(vec![]))
        ]))
        .err(),
        Some(MetainfoError::NoInfo)
    );
    assert_eq!(build_torrent(&info_with(vec![])).err(), Some(MetainfoError::NoName));
    assert_eq!(
        build_torrent(&info_with(vec![entry("name", Bencode::Bytes(vec![0xc0]))])).err(),
        Some(MetainfoError::NameNotText)
    );
    assert_eq!(
        build_torrent(&info_with(vec![entry("name", text("a"))])).err(),
        Some(MetainfoError::NoLength)
    );
    assert_eq!(
        build_torrent(&info_with(vec![
            entry("length", Bencode::Int(-1)),
            entry("name", text("a"))
        ]))
        .err(),
        Some(MetainfoError::NoLength)
    );
    for piece_length in [0i64, -4, 4294967296] {
        assert_eq!(
            build_torrent(&info_with(vec![
                entry("length", Bencode::Int(1)),
                entry("name", text("a")),
                entry("piece length", Bencode::Int(piece_length)),
            ]))
            .err(),
            Some(MetainfoError::NoPieceLength)
        );
    }
    assert_eq!(
        build_torrent(&info_with(vec![
            entry("length", Bencode::Int(1)),
            entry("name", text("a")),
            entry("piece length", Bencode::Int(4)),
        ]))
        .err(),
        Some(MetainfoError::NoPieces)
    );
    assert_eq!(
        build_torrent(&info_with(vec![
            entry("length", Bencode::Int(1)),
            entry("name", text("a")),
            entry("piece length", Bencode::Int(4)),
            entry("pieces", Bencode::Bytes(vec![0; 19])),
        ]))
        .err(),
        Some(MetainfoError::NoPieces)
    );
}

#[test]
fn a_torrent_without_content_has_no_pieces() {
    let torrent = build_torrent(&info_with(vec![
        entry("length", Bencode::Int(0)),
        entry("name", text("a")),
        entry("piece length", Bencode::Int(4294967295)),
        entry("pieces", Bencode::Bytes(vec![])),
    ]))
    .unwrap();
    assert_eq!(torrent.total_size, 0);
    assert_eq!(torrent.piece_length, 4294967295);
    assert!(torrent.pieces.is_empty());
}
