use btleech::protocol::{Handshake, HandshakeError, MessageType};

#[test]
fn test_handshake_encode_decode() {
    let info_hash = vec![0xAB; 20];
    let peer_id = b"-MY6969-123456789012".to_vec();

    let handshake = Handshake::new(info_hash.clone(), peer_id.clone()).unwrap();
    let encoded = handshake.encode();
    let decoded = Handshake::decode(&encoded).unwrap();

    assert_eq!(*decoded.info_hash(), info_hash);
    assert_eq!(*decoded.peer_id(), peer_id);
}

#[test]
fn test_handshake_decode_invalid_length() {
    let invalid_data = vec![0u8; 67];
    let result = Handshake::decode(&invalid_data);
    assert!(result.is_err());
}

#[test]
fn handshake_has_exactly_the_bytes_of_the_protocol() {
    let info_hash = vec![0xAA; 20];
    let peer_id = b"-XX0000-000000000000".to_vec();
    let encoded = Handshake::new(info_hash.clone(), peer_id.clone()).unwrap().encode();
    assert_eq!(encoded.len(), 68);
    let mut expected = vec![19u8];
    expected.extend_from_slice(b"BitTorrent protocol");
    expected.extend_from_slice(&[0u8; 8]);
    expected.extend_from_slice(&info_hash);
    expected.extend_from_slice(&peer_id);
    assert_eq!(encoded, expected);
    let decoded = Handshake::decode(&encoded).unwrap();
    assert_eq!(*decoded.info_hash(), info_hash);
    assert_eq!(*decoded.peer_id(), peer_id);
}

#[test]
fn handshake_needs_twenty_bytes_of_each() {
    assert_eq!(
        Handshake::new(vec![0; 19], vec![0; 20]).unwrap_err(),
        HandshakeError::InfoHashLength
    );
    assert_eq!(
        Handshake::new(vec![0; 20], vec![0; 21]).unwrap_err(),
        HandshakeError::PeerIdLength
    );
    assert_eq!(
        Handshake::new(vec![0; 3], vec![0; 3]).unwrap_err(),
        HandshakeError::InfoHashLength
    );
}

#[test]
fn handshake_decode_tells_what_is_wrong() {
    let good = Handshake::new(vec![1; 20], vec![2; 20]).unwrap().encode();
    assert_eq!(Handshake::decode(&good[..67]).unwrap_err(), HandshakeError::Length);
    let mut longer = good.clone();
    longer.push(0);
    assert_eq!(Handshake::decode(&longer).unwrap_err(), HandshakeError::Length);
    let mut wrong_length = good.clone();
    wrong_length[0] = 18;
    assert_eq!(Handshake::decode(&wrong_length).unwrap_err(), HandshakeError::NameLength);
    let mut wrong_name = good.clone();
    wrong_name[5] = b'x';
    assert_eq!(Handshake::decode(&wrong_name).unwrap_err(), HandshakeError::Name);
    let mut reserved = good.clone();
    reserved[25] = 0xff;
    let decoded = Handshake::decode(&reserved).unwrap();
    assert_eq!(*decoded.info_hash(), vec![1; 20]);
    assert_eq!(*decoded.peer_id(), vec![2; 20]);
}

#[test]
fn message_kinds_and_their_ids() {
    let kinds = [
        (MessageType::Choke, 0u8),
        (MessageType::Unchoke, 1),
        (MessageType::Interested, 2),
        (MessageType::NotInterested, 3),
        (MessageType::Have, 4),
        (MessageType::Bitfield, 5),
        (MessageType::Request, 6),
        (MessageType::Piece, 7),
        (MessageType::Cancel, 8),
        (MessageType::Port, 9),
    ];
    for (kind, id) in kinds {
        assert_eq!(kind.id(), id);
        assert_eq!(MessageType::from_id(id), Some(kind));
    }
    assert_eq!(MessageType::from_id(10), None);
    assert_eq!(MessageType::from_id(255), None);
}
