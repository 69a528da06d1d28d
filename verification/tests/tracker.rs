use btleech::bencoding::decoder::DecodeError;
use btleech::torrent::{File, Torrent};
use btleech::tracker::{
    announce_url, calculate_peer_id, peer_id_from, TrackerError, TrackerResponse,
};

fn torrent(announce: &str, info_hash: Vec<u8>, total_size: u64) -> Torrent {
    Torrent {
        info_hash,
        announce: announce.to_string(),
        multi_file: false,
        piece_length: 16384,
        total_size,
        pieces: vec![0; 20],
        output_file: "out".to_string(),
        files: vec![File { name: "out".to_string(), length: total_size }],
    }
}

#[test]
fn reads_a_compact_reply() {
    let reply = b"d8:intervali1800e5:peers6:\x7f\x00\x00\x01\x1a\xe1e";
    let response = TrackerResponse::new(reply).unwrap();
    assert_eq!(response.interval, 1800);
    assert_eq!(response.complete, 0);
    assert_eq!(response.incomplete, 0);
    assert_eq!(response.failure, "");
    assert_eq!(response.peers, vec![("127.0.0.1".to_string(), 6881)]);
}

#[test]
fn reads_counts_and_several_peers() {
    let mut reply = b"d8:completei5e10:incompletei7e8:intervali60e5:peers12:".to_vec();
    reply.extend_from_slice(&[10, 0, 0, 255, 0, 80, 192, 168, 1, 2, 255, 255]);
    reply.push(b'e');
    let response = TrackerResponse::new(&reply).unwrap();
    assert_eq!(response.interval, 60);
    assert_eq!(response.complete, 5);
    assert_eq!(response.incomplete, 7);
    assert_eq!(
        response.peers,
        vec![("10.0.0.255".to_string(), 80), ("192.168.1.2".to_string(), 65535)]
    );
}

#[test]
fn negative_counts_count_as_zero() {
    let reply = b"d8:completei-5e8:intervali60e5:peers0:e";
    let response = TrackerResponse::new(reply).unwrap();
    assert_eq!(response.complete, 0);
    assert!(response.peers.is_empty());
}

#[test]
fn a_failure_reason_is_an_error_that_carries_it() {
    let reply = b"d14:failure reason9:not found8:intervali60e5:peers0:e";
    assert_eq!(
        TrackerResponse::new(reply).err(),
        Some(TrackerError::Failure(b"not found".to_vec()))
    );
}

#[test]
fn replies_that_are_of_no_use() {
    assert_eq!(
        TrackerResponse::new(b"d8:interval").err(),
        Some(TrackerError::Decode(DecodeError::Truncated))
    );
    assert_eq!(TrackerResponse::new(b"i5e").err(), Some(TrackerError::NotADict));
    assert_eq!(TrackerResponse::new(b"d5:peers0:e").err(), Some(TrackerError::NoInterval));
    assert_eq!(
        TrackerResponse::new(b"d8:interval2:605:peers0:e").err(),
        Some(TrackerError::NoInterval)
    );
    assert_eq!(
        TrackerResponse::new(b"d8:intervali-1e5:peers0:e").err(),
        Some(TrackerError::NoInterval)
    );
    assert_eq!(
        TrackerResponse::new(b"d8:intervali4294967296e5:peers0:e").err(),
        Some(TrackerError::NoInterval)
    );
    assert_eq!(TrackerResponse::new(b"d8:intervali60ee").err(), Some(TrackerError::NoPeers));
    assert_eq!(
        TrackerResponse::new(b"d8:intervali60e5:peerslee").err(),
        Some(TrackerError::NoPeers)
    );
    assert_eq!(
        TrackerResponse::new(b"d8:intervali60e5:peers5:abcdee").err(),
        Some(TrackerError::BadPeers)
    );
}

#[test]
fn peer_lists_are_six_bytes_a_peer() {
    assert_eq!(TrackerResponse::parse_peers(&[]), Ok(vec![]));
    assert_eq!(
        TrackerResponse::parse_peers(&[1, 2, 3, 4, 1, 0]),
        Ok(vec![("1.2.3.4".to_string(), 256)])
    );
    assert_eq!(TrackerResponse::parse_peers(&[1, 2, 3, 4, 1]), Err(TrackerError::BadPeers));
    assert_eq!(
        TrackerResponse::parse_peers(&[1, 2, 3, 4, 1, 0, 9]),
        Err(TrackerError::BadPeers)
    );
}

#[test]
fn the_first_announce_names_the_event() {
    let mut info_hash = vec![0x12, 0x34, 0xab, b'a', b'Z', b'0', b'-', b'.', b'_', b'~'];
    info_hash.extend_from_slice(&[0xff, 0x00, b' ', b'/', b'%', b'&', b'=', b'?', b'+', 0x7f]);
    let t = torrent("http://tracker.example/announce", info_hash, 1000);
    let url = announce_url(&t, &"-MY6969-123456789012".to_string(), 6889, true, 0, 0);
    assert_eq!(
        url,
        "http://tracker.example/announce?info_hash=%124%ABaZ0-._~%FF%00%20%2F%25%26%3D%3F%2B%7F\
         &peer_id=-MY6969-123456789012&port=6889&uploaded=0&downloaded=0&left=1000&compact=1\
         &event=started"
    );
}

#[test]
fn later_announces_name_no_event_and_say_what_is_left() {
    let t = torrent("http://t/a", vec![b'x'; 20], 1000);
    let url = announce_url(&t, &"p q".to_string(), 1, false, 12, 400);
    assert_eq!(
        url,
        "http://t/a?info_hash=xxxxxxxxxxxxxxxxxxxx&peer_id=p%20q&port=1&uploaded=12\
         &downloaded=400&left=600&compact=1"
    );
}

#[test]
fn peer_ids_have_the_client_code_and_twelve_digits() {
    assert_eq!(peer_id_from(100_000_000_000), "-MY6969-100000000000");
    assert_eq!(peer_id_from(999_999_999_999), "-MY6969-999999999999");
    assert_eq!(peer_id_from(123_456_789_012), "-MY6969-123456789012");
}

#[test]
fn fresh_peer_ids_are_drawn_at_random() {
    let mut all_lowest = true;
    let mut all_highest = true;
    for _ in 0..8 {
        let id = calculate_peer_id();
        assert_eq!(id.len(), 20);
        assert!(id.starts_with("-MY6969-"));
        let digits = &id[8..];
        assert!(digits.bytes().all(|b| b.is_ascii_digit()));
        assert_ne!(digits.as_bytes()[0], b'0');
        all_lowest = all_lowest && digits == "100000000000";
        all_highest = all_highest && digits == "999999999999";
    }
    assert!(!all_lowest);
    assert!(!all_highest);
}
