use btleech::protocol::wire::{unpack_bitfield, Message, WireError};

#[test]
fn frames_have_the_bytes_of_the_protocol() {
    assert_eq!(Message::KeepAlive.encode(), vec![0, 0, 0, 0]);
    assert_eq!(Message::Choke.encode(), vec![0, 0, 0, 1, 0]);
    assert_eq!(Message::Unchoke.encode(), vec![0, 0, 0, 1, 1]);
    assert_eq!(Message::Interested.encode(), vec![0, 0, 0, 1, 2]);
    assert_eq!(Message::NotInterested.encode(), vec![0, 0, 0, 1, 3]);
    assert_eq!(Message::Have(0x01020304).encode(), vec![0, 0, 0, 5, 4, 1, 2, 3, 4]);
    assert_eq!(Message::Bitfield(vec![0xf0, 0x80]).encode(), vec![0, 0, 0, 3, 5, 0xf0, 0x80]);
    assert_eq!(
        Message::Request { index: 1, begin: 16384, length: 16384 }.encode(),
        vec![0, 0, 0, 13, 6, 0, 0, 0, 1, 0, 0, 0x40, 0, 0, 0, 0x40, 0]
    );
    assert_eq!(
        Message::Piece { index: 2, begin: 3, data: vec![9, 8, 7] }.encode(),
        vec![0, 0, 0, 12, 7, 0, 0, 0, 2, 0, 0, 0, 3, 9, 8, 7]
    );
    assert_eq!(
        Message::Cancel { index: 0xffffffff, begin: 0, length: 1 }.encode(),
        vec![0, 0, 0, 13, 8, 255, 255, 255, 255, 0, 0, 0, 0, 0, 0, 0, 1]
    );
    assert_eq!(Message::Port(6881).encode(), vec![0, 0, 0, 3, 9, 0x1a, 0xe1]);
}

#[test]
fn every_message_comes_back_from_its_frame() {
    let messages = vec![
        Message::KeepAlive,
        Message::Choke,
        Message::Unchoke,
        Message::Interested,
        Message::NotInterested,
        Message::Have(77),
        Message::Bitfield(vec![]),
        Message::Bitfield(vec![1, 2, 3]),
        Message::Request { index: 5, begin: 6, length: 7 },
        Message::Piece { index: 5, begin: 6, data: vec![] },
        Message::Piece { index: 5, begin: 6, data: vec![0; 100] },
        Message::Cancel { index: 8, begin: 9, length: 10 },
        Message::Port(65535),
    ];
    for message in messages {
        let mut bytes = message.encode();
        let length = bytes.len();
        bytes.extend_from_slice(&[0xde, 0xad]);
        assert_eq!(Message::decode(&bytes, 1000), Ok(Some((message, length))));
    }
}

#[test]
fn a_frame_that_is_not_whole_yet_gives_nothing() {
    let bytes = Message::Have(3).encode();
    for cut in 0..bytes.len() {
        assert_eq!(Message::decode(&bytes[..cut], 1000), Ok(None));
    }
    assert_eq!(Message::decode(&bytes, 1000), Ok(Some((Message::Have(3), 9))));
}

#[test]
fn frames_that_are_no_messages() {
    assert_eq!(Message::decode(&[0, 0, 0, 1, 10], 1000), Err(WireError::UnknownId));
    assert_eq!(Message::decode(&[0, 0, 0, 2, 0, 0], 1000), Err(WireError::BadLength));
    assert_eq!(Message::decode(&[0, 0, 0, 2, 4, 0], 1000), Err(WireError::BadLength));
    assert_eq!(
        Message::decode(&[0, 0, 0, 5, 6, 0, 0, 0, 0], 1000),
        Err(WireError::BadLength)
    );
    assert_eq!(
        Message::decode(&[0, 0, 0, 8, 7, 0, 0, 0, 0, 0, 0, 0], 1000),
        Err(WireError::BadLength)
    );
    assert_eq!(Message::decode(&[0, 0, 0, 2, 9, 0], 1000), Err(WireError::BadLength));
    assert_eq!(Message::decode(&[0, 0, 4, 0], 1023), Err(WireError::TooLong));
    assert_eq!(Message::decode(&[0, 0, 4, 0], 1024), Ok(None));
    assert_eq!(Message::decode(&[255, 255, 255, 255], 1024), Err(WireError::TooLong));
}

#[test]
fn bitfields_are_read_from_the_most_significant_bit() {
    assert_eq!(unpack_bitfield(&[0b1010_0000], 3), Ok(vec![1, 0, 1]));
    assert_eq!(unpack_bitfield(&[0b1111_1111], 8), Ok(vec![1; 8]));
    assert_eq!(
        unpack_bitfield(&[0b0000_0001, 0b1000_0000], 9),
        Ok(vec![0, 0, 0, 0, 0, 0, 0, 1, 1])
    );
    assert_eq!(unpack_bitfield(&[], 0), Ok(vec![]));
}

#[test]
fn bitfields_of_the_wrong_form_are_refused() {
    assert_eq!(unpack_bitfield(&[0b1010_0000, 0], 3), Err(WireError::BadBitfield));
    assert_eq!(unpack_bitfield(&[], 3), Err(WireError::BadBitfield));
    assert_eq!(unpack_bitfield(&[0b1011_0000], 3), Err(WireError::BadBitfield));
    assert_eq!(unpack_bitfield(&[0b1010_0001], 3), Err(WireError::BadBitfield));
    assert_eq!(unpack_bitfield(&[0], 0), Err(WireError::BadBitfield));
}
