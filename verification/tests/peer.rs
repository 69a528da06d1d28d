use btleech::client::manager::{PieceManager, PieceWrite};
use btleech::protocol::peer::{Action, PeerState, REQUEST_WINDOW};
use btleech::protocol::wire::Message;
use btleech::torrent::{File, Torrent};
use sha1::{Digest, Sha1};

fn torrent(piece_length: u32, total_size: u64, contents: &[&[u8]]) -> Torrent {
    let mut pieces = Vec::new();
    for content in contents {
        pieces.extend_from_slice(&Sha1::digest(content));
    }
    Torrent {
        info_hash: vec![0; 20],
        announce: "http://t".to_string(),
        multi_file: false,
        piece_length,
        total_size,
        pieces,
        output_file: "a".to_string(),
        files: vec![File { name: "a".to_string(), length: total_size }],
    }
}

fn request(index: u32, begin: u32, length: u32) -> Action {
    Action::Send(Message::Request { index, begin, length })
}

#[test]
fn a_connection_starts_choked_and_without_interest() {
    let state = PeerState::new("p".to_string());
    assert!(state.am_choking);
    assert!(state.peer_choking);
    assert!(!state.am_interested);
    assert!(!state.peer_interested);
    assert!(!state.closed);
    assert_eq!(state.outstanding, 0);
}

#[test]
fn a_bitfield_with_a_needed_piece_makes_this_side_interested() {
    let mut manager = PieceManager::new(torrent(3, 6, &[b"abc", b"def"]));
    let mut state = PeerState::new("p".to_string());
    let actions = state.on_message(&mut manager, Message::Bitfield(vec![0b0100_0000]), 1);
    assert_eq!(actions, vec![Action::Send(Message::Interested)]);
    assert!(state.am_interested);
    assert!(state.registered);
    let again = state.on_message(&mut manager, Message::Have(0), 2);
    assert!(again.is_empty());
    let actions = state.on_message(&mut manager, Message::Unchoke, 3);
    assert_eq!(actions, vec![request(0, 0, 3), request(1, 0, 3)]);
    assert_eq!(state.outstanding, 2);
    assert!(!state.peer_choking);
}

#[test]
fn a_peer_without_needed_pieces_raises_no_interest() {
    let mut manager = PieceManager::new(torrent(3, 6, &[b"abc", b"def"]));
    let mut state = PeerState::new("p".to_string());
    assert!(state.on_message(&mut manager, Message::Bitfield(vec![0]), 1).is_empty());
    assert!(!state.am_interested);
    assert!(state.on_message(&mut manager, Message::Unchoke, 2).is_empty());
    let actions = state.on_message(&mut manager, Message::Have(1), 3);
    assert_eq!(actions, vec![Action::Send(Message::Interested)]);
    assert!(state.on_message(&mut manager, Message::Have(9), 4).is_empty());
}

#[test]
fn the_first_have_registers_the_peer() {
    let mut manager = PieceManager::new(torrent(3, 6, &[b"abc", b"def"]));
    let mut state = PeerState::new("p".to_string());
    let actions = state.on_message(&mut manager, Message::Have(1), 1);
    assert_eq!(actions, vec![Action::Send(Message::Interested)]);
    let actions = state.on_message(&mut manager, Message::Unchoke, 2);
    assert_eq!(actions, vec![request(1, 0, 3)]);
}

#[test]
fn a_bitfield_of_the_wrong_form_ends_the_connection() {
    let mut manager = PieceManager::new(torrent(3, 6, &[b"abc", b"def"]));
    for packed in [vec![], vec![0b1110_0000], vec![0, 0]] {
        let mut state = PeerState::new("p".to_string());
        let actions = state.on_message(&mut manager, Message::Bitfield(packed), 1);
        assert_eq!(actions, vec![Action::Close]);
        assert!(state.closed);
        assert!(state.on_message(&mut manager, Message::Unchoke, 2).is_empty());
        assert!(state.on_message(&mut manager, Message::Bitfield(vec![0b1100_0000]), 3).is_empty());
    }
}

#[test]
fn the_window_bounds_the_requests_under_way() {
    let contents: Vec<Vec<u8>> = (0..8u8).map(|i| vec![i; 2]).collect();
    let slices: Vec<&[u8]> = contents.iter().map(|c| c.as_slice()).collect();
    let mut manager = PieceManager::new(torrent(2, 16, &slices));
    let mut state = PeerState::new("p".to_string());
    state.on_message(&mut manager, Message::Bitfield(vec![0xff]), 1);
    let actions = state.on_message(&mut manager, Message::Unchoke, 2);
    assert_eq!(actions.len(), REQUEST_WINDOW as usize);
    assert_eq!(actions, (0..5).map(|i| request(i, 0, 2)).collect::<Vec<_>>());
    assert_eq!(state.outstanding, 5);
    assert!(state.on_message(&mut manager, Message::Unchoke, 3).is_empty());
    let piece = Message::Piece { index: 0, begin: 0, data: vec![0; 2] };
    let actions = state.on_message(&mut manager, piece, 4);
    assert_eq!(
        actions,
        vec![Action::Write(PieceWrite { offset: 0, data: vec![0; 2] }), request(5, 0, 2)]
    );
    assert_eq!(state.outstanding, 5);
}

#[test]
fn after_a_choke_no_request_is_sent_and_another_peer_takes_over() {
    let data: Vec<u8> = (0..40000u32).map(|i| (i % 253) as u8).collect();
    let mut manager = PieceManager::new(torrent(40000, 40000, &[&data]));
    let mut first = PeerState::new("first".to_string());
    let mut other = PeerState::new("other".to_string());
    first.on_message(&mut manager, Message::Bitfield(vec![0x80]), 0);
    other.on_message(&mut manager, Message::Bitfield(vec![0x80]), 0);
    let actions = first.on_message(&mut manager, Message::Unchoke, 1_000);
    assert_eq!(
        actions,
        vec![request(0, 0, 16384), request(0, 16384, 16384), request(0, 32768, 7232)]
    );
    let piece = Message::Piece { index: 0, begin: 32768, data: data[32768..].to_vec() };
    assert!(first.on_message(&mut manager, piece, 1_500).is_empty());
    assert_eq!(first.outstanding, 2);

    assert!(first.on_message(&mut manager, Message::Choke, 2_000).is_empty());
    assert!(first.peer_choking);
    assert_eq!(first.outstanding, 0);
    for message in [Message::KeepAlive, Message::Have(0), Message::Interested] {
        assert!(first.on_message(&mut manager, message, 3_000).is_empty());
    }

    assert!(other.on_message(&mut manager, Message::Unchoke, 300_000).is_empty());
    assert!(other.on_message(&mut manager, Message::Unchoke, 301_000).is_empty());
    let actions = other.on_message(&mut manager, Message::Unchoke, 301_001);
    assert_eq!(actions, vec![request(0, 0, 16384), request(0, 16384, 16384)]);
    let piece = Message::Piece { index: 0, begin: 0, data: data[..16384].to_vec() };
    assert!(other.on_message(&mut manager, piece, 301_002).is_empty());
    let piece = Message::Piece { index: 0, begin: 16384, data: data[16384..32768].to_vec() };
    let actions = other.on_message(&mut manager, piece, 301_003);
    assert_eq!(actions, vec![Action::Write(PieceWrite { offset: 0, data })]);
    assert!(manager.complete());
}

#[test]
fn an_error_closes_the_connection_and_forgets_the_peer() {
    let mut manager = PieceManager::new(torrent(3, 3, &[b"abc"]));
    let mut state = PeerState::new("p".to_string());
    state.on_message(&mut manager, Message::Bitfield(vec![0x80]), 1);
    assert_eq!(state.on_failure(&mut manager), vec![Action::Close]);
    assert!(state.closed);
    assert_eq!(manager.next_request_at(&"p".to_string(), 2), None);
    let mut late = PeerState::new("p".to_string());
    late.on_message(&mut manager, Message::Bitfield(vec![0x80]), 3);
    assert_eq!(late.on_message(&mut manager, Message::Unchoke, 4), vec![request(0, 0, 3)]);
}

#[test]
fn requests_of_the_peer_are_not_served() {
    let mut manager = PieceManager::new(torrent(3, 3, &[b"abc"]));
    let mut state = PeerState::new("p".to_string());
    for message in [
        Message::Request { index: 0, begin: 0, length: 3 },
        Message::Cancel { index: 0, begin: 0, length: 3 },
        Message::Port(6881),
        Message::KeepAlive,
    ] {
        assert!(state.on_message(&mut manager, message, 1).is_empty());
    }
    state.on_message(&mut manager, Message::Interested, 2);
    assert!(state.peer_interested);
    state.on_message(&mut manager, Message::NotInterested, 3);
    assert!(!state.peer_interested);
}
