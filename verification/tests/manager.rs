use btleech::client::layout::layout_pieces;
use btleech::client::manager::{PieceManager, PieceWrite};
use btleech::client::{Block, Piece, Status};
use btleech::torrent::{File, Torrent};
use sha1::{Digest, Sha1};

const ABC_SHA1_HEX: &str = "a9993e364706816aba3e25717850c26c9cd0d89d";
const BLOCK: u64 = 16384;

fn torrent(piece_length: u32, total_size: u64, contents: &[&[u8]]) -> Torrent {
    let mut pieces = Vec::new();
    for content in contents {
        pieces.extend_from_slice(&Sha1::digest(content));
    }
    Torrent {
        info_hash: vec![0; 20],
        announce: "http://t".to_string(),
        multi_file: false,
        piece_length,
        total_size,
        pieces,
        output_file: "a".to_string(),
        files: vec![File { name: "a".to_string(), length: total_size }],
    }
}

fn peer(name: &str) -> String {
    name.to_string()
}

fn content(piece: usize, length: usize) -> Vec<u8> {
    (0..length).map(|i| (piece * 31 + i * 7 + i / 251) as u8).collect()
}

#[test]
fn a_piece_is_checked_against_its_hash_in_hexadecimal() {
    let mut piece = Piece::new(0, vec![Block::new(0, 0, 3)], ABC_SHA1_HEX.to_string());
    assert!(!piece.is_hash_matching());
    piece.block_received(0, b"abc".to_vec());
    assert!(piece.is_complete());
    assert!(piece.is_hash_matching());
    assert_eq!(piece.verified_payload(), Some(b"abc".to_vec()));

    let mut upper = Piece::new(0, vec![Block::new(0, 0, 3)], ABC_SHA1_HEX.to_uppercase());
    upper.block_received(0, b"abc".to_vec());
    assert!(!upper.is_hash_matching());

    let mut raw = Piece::new(0, vec![Block::new(0, 0, 3)], "abc".to_string());
    raw.block_received(0, b"abc".to_vec());
    assert!(!raw.is_hash_matching());

    let mut wrong = Piece::new(0, vec![Block::new(0, 0, 3)], ABC_SHA1_HEX.to_string());
    wrong.block_received(0, b"abd".to_vec());
    assert!(!wrong.is_hash_matching());
    assert_eq!(wrong.verified_payload(), None);
}

#[test]
fn a_piece_hashes_its_blocks_one_after_the_other() {
    let blocks = vec![Block::new(0, 0, 1), Block::new(0, 1, 2)];
    let mut piece = Piece::new(0, blocks, ABC_SHA1_HEX.to_string());
    piece.block_received(1, b"bc".to_vec());
    assert!(!piece.is_complete());
    assert!(!piece.is_hash_matching());
    piece.block_received(0, b"a".to_vec());
    assert!(piece.is_complete());
    assert!(piece.is_hash_matching());
    piece.reset();
    assert!(piece.blocks.iter().all(|b| b.status == Status::Missing && b.data.is_none()));
    assert!(!piece.is_complete());
}

#[test]
fn pieces_are_cut_into_blocks_of_two_to_the_fourteen() {
    let t = torrent(40000, 100000, &[b"", b"", b""]);
    let pieces = layout_pieces(&t);
    assert_eq!(pieces.len(), 3);
    let lengths: Vec<Vec<u64>> =
        pieces.iter().map(|p| p.blocks.iter().map(|b| b.length).collect()).collect();
    assert_eq!(lengths[0], vec![16384, 16384, 7232]);
    assert_eq!(lengths[1], vec![16384, 16384, 7232]);
    assert_eq!(lengths[2], vec![16384, 3616]);
    let offsets: Vec<u64> = pieces[0].blocks.iter().map(|b| b.offset).collect();
    assert_eq!(offsets, vec![0, 16384, 32768]);
    for (i, piece) in pieces.iter().enumerate() {
        assert_eq!(piece.index as usize, i);
        assert!(piece.blocks.iter().all(|b| b.piece == i as u64));
        assert!(piece.blocks.iter().all(|b| b.status == Status::Missing && b.data.is_none()));
    }
    let total: u64 = lengths.iter().flatten().sum();
    assert_eq!(total, 100000);
    assert_eq!(pieces[0].hash_value, "da39a3ee5e6b4b0d3255bfef95601890afd80709");
}

#[test]
fn the_last_piece_is_full_when_nothing_is_left_over() {
    let t = torrent(32768, 65536, &[b"", b""]);
    let pieces = layout_pieces(&t);
    let lengths: Vec<Vec<u64>> =
        pieces.iter().map(|p| p.blocks.iter().map(|b| b.length).collect()).collect();
    assert_eq!(lengths, vec![vec![16384, 16384], vec![16384, 16384]]);
    let small = layout_pieces(&torrent(3, 3, &[b"abc"]));
    assert_eq!(small.len(), 1);
    assert_eq!(small[0].blocks.len(), 1);
    assert_eq!(small[0].blocks[0].length, 3);
    assert_eq!(small[0].hash_value, ABC_SHA1_HEX);
    assert!(layout_pieces(&torrent(3, 0, &[])).is_empty());
}

#[test]
fn one_block_completes_a_one_block_torrent() {
    let mut manager = PieceManager::new(torrent(3, 3, &[b"abc"]));
    assert!(!manager.complete());
    assert_eq!(manager.bytes_downloaded(), 0);
    assert_eq!(manager.bytes_uploaded(), 0);
    manager.add_peer(peer("p"), vec![1]);
    let block = manager.next_request_at(&peer("p"), 1000).unwrap();
    assert_eq!((block.piece, block.offset, block.length), (0, 0, 3));
    assert_eq!(block.status, Status::Pending);
    assert_eq!(manager.next_request_at(&peer("p"), 1001), None);
    let write = manager.block_received(peer("p"), 0, 0, b"abc".to_vec());
    assert_eq!(write, Some(PieceWrite { offset: 0, data: b"abc".to_vec() }));
    assert!(manager.complete());
    assert_eq!(manager.bytes_downloaded(), 3);
    assert_eq!(manager.next_request_at(&peer("p"), 1002), None);
}

#[test]
fn the_download_is_complete_after_one_round_for_each_block() {
    let sizes = [40000usize, 40000, 20000];
    let contents: Vec<Vec<u8>> = sizes.iter().enumerate().map(|(i, n)| content(i, *n)).collect();
    let slices: Vec<&[u8]> = contents.iter().map(|c| c.as_slice()).collect();
    let mut manager = PieceManager::new(torrent(40000, 100000, &slices));
    manager.add_peer(peer("p"), vec![1, 1, 1]);
    let blocks = 3 + 3 + 2;
    let mut file = vec![0u8; 100000];
    let mut writes = 0;
    for round in 0..blocks {
        assert!(!manager.complete());
        let block = manager.next_request_at(&peer("p"), round as u128).unwrap();
        let from = block.offset as usize;
        let to = from + block.length as usize;
        let data = contents[block.piece as usize][from..to].to_vec();
        if let Some(write) = manager.block_received(peer("p"), block.piece, block.offset, data) {
            let at = write.offset as usize;
            file[at..at + write.data.len()].copy_from_slice(&write.data);
            writes += 1;
        }
    }
    assert!(manager.complete());
    assert_eq!(writes, 3);
    assert_eq!(manager.next_request_at(&peer("p"), 99), None);
    assert_eq!(file, contents.concat());
    assert_eq!(manager.bytes_downloaded(), 100000);
}

#[test]
fn the_rarest_piece_is_started_first() {
    let mut manager = PieceManager::new(torrent(3, 9, &[b"aaa", b"bbb", b"ccc"]));
    manager.add_peer(peer("a"), vec![1, 1, 0]);
    manager.add_peer(peer("b"), vec![0, 1, 1]);
    manager.add_peer(peer("c"), vec![1, 1, 1]);
    let first = manager.get_rarest_piece(&peer("c")).unwrap();
    assert_eq!(first.index, 0);
    let second = manager.get_rarest_piece(&peer("c")).unwrap();
    assert_eq!(second.index, 2);
    let third = manager.get_rarest_piece(&peer("c")).unwrap();
    assert_eq!(third.index, 1);
    assert!(manager.get_rarest_piece(&peer("c")).is_none());
}

#[test]
fn a_piece_held_by_one_peer_only_comes_before_the_others() {
    let mut manager = PieceManager::new(torrent(3, 9, &[b"aaa", b"bbb", b"ccc"]));
    manager.add_peer(peer("a"), vec![1, 1, 0]);
    manager.add_peer(peer("b"), vec![1, 1, 0]);
    manager.add_peer(peer("c"), vec![1, 1, 1]);
    assert_eq!(manager.get_rarest_piece(&peer("c")).unwrap().index, 2);
    assert!(manager.get_rarest_piece(&peer("nobody")).is_none());
    assert_eq!(manager.get_rarest_piece(&peer("a")).unwrap().index, 0);
    assert_eq!(manager.get_rarest_piece(&peer("a")).unwrap().index, 1);
    assert!(manager.get_rarest_piece(&peer("a")).is_none());
}

#[test]
fn a_request_is_made_again_after_it_has_expired_and_not_before() {
    let mut manager = PieceManager::new(torrent(32768, 32768, &[b"x"]));
    manager.add_peer(peer("p"), vec![1]);
    manager.add_peer(peer("q"), vec![1]);
    manager.add_peer(peer("r"), vec![0]);
    let first = manager.next_request_at(&peer("p"), 1_000).unwrap();
    let second = manager.next_request_at(&peer("p"), 2_000).unwrap();
    assert_eq!((first.offset, second.offset), (0, BLOCK));
    assert_eq!(manager.next_request_at(&peer("q"), 301_000), None);
    assert_eq!(manager.expired_requests_at(&peer("q"), 301_000), None);
    assert_eq!(manager.next_request_at(&peer("r"), 400_000), None);
    let again = manager.next_request_at(&peer("q"), 301_001).unwrap();
    assert_eq!((again.piece, again.offset), (0, 0));
    assert_eq!(manager.next_request_at(&peer("q"), 301_002), None);
    let other = manager.next_request_at(&peer("q"), 302_001).unwrap();
    assert_eq!((other.piece, other.offset), (0, BLOCK));
    assert_eq!(manager.next_request_at(&peer("q"), 601_001), None);
    let third = manager.next_request_at(&peer("p"), 601_002).unwrap();
    assert_eq!((third.piece, third.offset), (0, 0));
}

#[test]
fn a_corrupt_piece_is_cleared_and_can_be_fetched_again() {
    let good = content(0, 20000);
    let mut manager = PieceManager::new(torrent(20000, 20000, &[&good]));
    manager.add_peer(peer("p"), vec![1]);
    let a = manager.next_request_at(&peer("p"), 1).unwrap();
    let b = manager.next_request_at(&peer("p"), 2).unwrap();
    assert_eq!((a.offset, a.length, b.offset, b.length), (0, 16384, 16384, 3616));
    assert_eq!(manager.block_received(peer("p"), 0, 0, good[..16384].to_vec()), None);
    assert_eq!(manager.block_received(peer("p"), 0, 16384, vec![0; 3616]), None);
    assert!(!manager.complete());
    let a = manager.next_request_at(&peer("p"), 3).unwrap();
    let b = manager.next_request_at(&peer("p"), 4).unwrap();
    assert_eq!((a.offset, b.offset), (0, 16384));
    assert_eq!(a.status, Status::Pending);
    assert_eq!(manager.block_received(peer("p"), 0, 16384, good[16384..].to_vec()), None);
    let write = manager.block_received(peer("p"), 0, 0, good[..16384].to_vec());
    assert_eq!(write, Some(PieceWrite { offset: 0, data: good.clone() }));
    assert!(manager.complete());
}

#[test]
fn the_second_of_two_deliveries_of_a_block_is_discarded() {
    let good = content(0, 16384);
    let mut manager = PieceManager::new(torrent(16384, 16384, &[&good]));
    manager.add_peer(peer("p"), vec![1]);
    manager.add_peer(peer("q"), vec![1]);
    let block = manager.next_request_at(&peer("p"), 1).unwrap();
    assert_eq!((block.piece, block.offset, block.length), (0, 0, 16384));
    let first = manager.block_received(peer("p"), 0, 0, good.clone());
    assert_eq!(first, Some(PieceWrite { offset: 0, data: good.clone() }));
    let second = manager.block_received(peer("q"), 0, 0, vec![7; 16384]);
    assert_eq!(second, None);
    assert!(manager.complete());
    assert_eq!(manager.bytes_downloaded(), 16384);
}

#[test]
fn a_block_that_is_there_already_keeps_its_data() {
    let good = content(0, 20000);
    let mut manager = PieceManager::new(torrent(20000, 20000, &[&good]));
    manager.add_peer(peer("p"), vec![1]);
    manager.next_request_at(&peer("p"), 1).unwrap();
    assert_eq!(manager.block_received(peer("p"), 0, 0, good[..16384].to_vec()), None);
    assert_eq!(manager.block_received(peer("q"), 0, 0, vec![9; 16384]), None);
    assert_eq!(manager.block_received(peer("q"), 1, 0, vec![9; 16384]), None);
    assert_eq!(manager.block_received(peer("q"), 0, 5, vec![9; 16384]), None);
    let last = manager.next_request_at(&peer("p"), 2).unwrap();
    assert_eq!(last.offset, 16384);
    let write = manager.block_received(peer("p"), 0, 16384, good[16384..].to_vec());
    assert_eq!(write, Some(PieceWrite { offset: 0, data: good }));
}

#[test]
fn pieces_are_written_at_their_place_in_the_file() {
    let contents = [content(0, 5), content(1, 5), content(2, 2)];
    let slices: Vec<&[u8]> = contents.iter().map(|c| c.as_slice()).collect();
    let mut manager = PieceManager::new(torrent(5, 12, &slices));
    manager.add_peer(peer("p"), vec![0, 0, 1]);
    let block = manager.next_request_at(&peer("p"), 1).unwrap();
    assert_eq!((block.piece, block.offset, block.length), (2, 0, 2));
    let write = manager.block_received(peer("p"), 2, 0, contents[2].clone());
    assert_eq!(write, Some(PieceWrite { offset: 10, data: contents[2].clone() }));
    assert_eq!(manager.bytes_downloaded(), 2);
    assert_eq!(manager.next_request_at(&peer("p"), 2), None);
    manager.update_peer(peer("p"), 1);
    manager.update_peer(peer("p"), 7);
    manager.update_peer(peer("nobody"), 0);
    let block = manager.next_request_at(&peer("p"), 3).unwrap();
    assert_eq!(block.piece, 1);
    manager.delete_peer(peer("p"));
    manager.delete_peer(peer("p"));
    assert_eq!(manager.next_request_at(&peer("p"), 4), None);
    let write = manager.block_received(peer("p"), 1, 0, contents[1].clone());
    assert_eq!(write, Some(PieceWrite { offset: 5, data: contents[1].clone() }));
    assert_eq!(manager.bytes_downloaded(), 7);
    assert!(!manager.complete());
}

#[test]
fn the_bytes_downloaded_are_the_sizes_of_the_verified_pieces() {
    let mut manager = PieceManager::new(torrent(4, 3, &[b"abc"]));
    manager.add_peer(peer("p"), vec![1]);
    assert_eq!(manager.bytes_downloaded(), 0);
    let block = manager.next_request_at(&peer("p"), 1).unwrap();
    assert_eq!((block.piece, block.offset, block.length), (0, 0, 3));
    assert_eq!(manager.bytes_downloaded(), 0);
    let write = manager.block_received(peer("p"), 0, 0, b"abc".to_vec());
    assert_eq!(write, Some(PieceWrite { offset: 0, data: b"abc".to_vec() }));
    assert!(manager.complete());
    assert_eq!(manager.bytes_downloaded(), 3);

    let contents = [content(0, 40000), content(1, 40000), content(2, 20000)];
    let slices: Vec<&[u8]> = contents.iter().map(|c| c.as_slice()).collect();
    let mut manager = PieceManager::new(torrent(40000, 100000, &slices));
    manager.add_peer(peer("p"), vec![0, 0, 1]);
    for _ in 0..2 {
        let block = manager.next_request_at(&peer("p"), 1).unwrap();
        let from = block.offset as usize;
        let data = contents[2][from..from + block.length as usize].to_vec();
        manager.block_received(peer("p"), block.piece, block.offset, data);
    }
    assert_eq!(manager.bytes_downloaded(), 20000);
    manager.update_peer(peer("p"), 0);
    for _ in 0..3 {
        let block = manager.next_request_at(&peer("p"), 2).unwrap();
        let from = block.offset as usize;
        let data = contents[0][from..from + block.length as usize].to_vec();
        manager.block_received(peer("p"), block.piece, block.offset, data);
    }
    assert_eq!(manager.bytes_downloaded(), 60000);
    assert!(!manager.complete());
}

#[test]
fn data_of_another_length_than_the_block_is_discarded() {
    let good = content(0, 20000);
    let mut manager = PieceManager::new(torrent(20000, 20000, &[&good]));
    manager.add_peer(peer("p"), vec![1]);
    manager.add_peer(peer("q"), vec![1]);
    manager.next_request_at(&peer("p"), 1_000).unwrap();
    manager.next_request_at(&peer("p"), 1_000).unwrap();
    assert_eq!(manager.block_received(peer("p"), 0, 0, good[..16383].to_vec()), None);
    assert_eq!(manager.block_received(peer("p"), 0, 0, vec![]), None);
    assert_eq!(manager.block_received(peer("p"), 0, 16384, good[16384..].to_vec()), None);
    assert_eq!(manager.block_received(peer("p"), 0, 0, good.clone()), None);
    assert_eq!(manager.next_request_at(&peer("q"), 2_000), None);
    let again = manager.next_request_at(&peer("q"), 301_001).unwrap();
    assert_eq!((again.piece, again.offset, again.length), (0, 0, 16384));
    let write = manager.block_received(peer("q"), 0, 0, good[..16384].to_vec());
    assert_eq!(write, Some(PieceWrite { offset: 0, data: good }));
    assert_eq!(manager.bytes_downloaded(), 20000);
}

#[test]
fn the_clock_driven_scheduler_hands_out_blocks() {
    let mut manager = PieceManager::new(torrent(3, 6, &[b"abc", b"def"]));
    manager.add_peer(peer("p"), vec![1, 1]);
    assert_eq!(manager.expired_requests(&peer("p")), None);
    assert_eq!(manager.next_ongoing(&peer("p")), None);
    let first = manager.next_request(&peer("p")).unwrap();
    assert_eq!(first.piece, 0);
    assert_eq!(manager.expired_requests(&peer("p")), None);
    let second = manager.next_missing(&peer("p")).unwrap();
    assert_eq!(second.piece, 1);
    assert_eq!(manager.next_request(&peer("p")), None);
    assert_eq!(manager.initiate_pieces().len(), 2);
    assert_eq!(manager.piece_count(), 2);
}

#[test]
fn write_piece_joins_the_data_of_the_blocks() {
    let manager = PieceManager::new(torrent(3, 3, &[b"abc"]));
    let mut first = Block::new(0, 0, 2);
    first.data = Some(b"ab".to_vec());
    let mut second = Block::new(0, 2, 1);
    second.data = Some(b"c".to_vec());
    let empty = Block::new(0, 3, 1);
    assert_eq!(
        manager.write_piece(9, &[first.clone(), second.clone()]),
        Some(PieceWrite { offset: 9, data: b"abc".to_vec() })
    );
    assert_eq!(manager.write_piece(9, &[first, empty, second]), None);
    assert_eq!(manager.write_piece(4, &[]), Some(PieceWrite { offset: 4, data: vec![] }));
}

#[test]
fn a_piece_with_racing_deliveries_is_written_once_from_the_first_arrivals() {
    let good = content(0, 40000);
    let other = content(1, 3);
    let mut manager = PieceManager::new(torrent(40000, 40003, &[&good, &other]));
    manager.add_peer(peer("p"), vec![1, 0]);
    manager.add_peer(peer("q"), vec![1, 1]);
    for _ in 0..3 {
        manager.next_request_at(&peer("p"), 1).unwrap();
    }
    let mut writes = Vec::new();
    let deliveries: Vec<(u64, Vec<u8>)> = vec![
        (16384, good[16384..32768].to_vec()),
        (16384, vec![0xee; 16384]),
        (0, good[..16384].to_vec()),
        (0, vec![0xdd; 16384]),
        (16384, vec![0xcc; 16384]),
        (32768, good[32768..].to_vec()),
        (32768, vec![0xbb; 7232]),
        (0, good[..16384].to_vec()),
    ];
    for (offset, data) in deliveries {
        if let Some(write) = manager.block_received(peer("q"), 0, offset, data) {
            writes.push(write);
        }
    }
    assert_eq!(writes, vec![PieceWrite { offset: 0, data: good }]);
    assert_eq!(manager.bytes_downloaded(), 40000);
    assert!(!manager.complete());
    let last = manager.next_request_at(&peer("q"), 2).unwrap();
    assert_eq!((last.piece, last.offset, last.length), (1, 0, 3));
    let write = manager.block_received(peer("q"), 1, 0, other.clone());
    assert_eq!(write, Some(PieceWrite { offset: 40000, data: other }));
    assert!(manager.complete());
    assert_eq!(manager.bytes_downloaded(), 40003);
}
