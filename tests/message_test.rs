use rust_torrent_client::bitfield::Bitfield;
use rust_torrent_client::layout::{Block, DataBlock};
use rust_torrent_client::message::{DecodeError, Message};

#[test]
fn serialize_choke_test() {
    assert_eq!(Message::Choke.serialize(), vec![0, 0, 0, 1, 0]);
}

#[test]
fn deserialize_choke_test() {
    assert_eq!(Message::deserialize(vec![0]), Some(Message::Choke));
}

#[test]
fn serialize_unchoke_test() {
    assert_eq!(Message::Unchoke.serialize(), vec![0, 0, 0, 1, 1]);
}

#[test]
fn deserialize_unchoke_test() {
    assert_eq!(Message::deserialize(vec![1]), Some(Message::Unchoke));
}

#[test]
fn serialize_interested_test() {
    assert_eq!(Message::Interested.serialize(), vec![0, 0, 0, 1, 2]);
}

#[test]
fn deserialize_interested_test() {
    assert_eq!(Message::deserialize(vec![2]), Some(Message::Interested));
}

#[test]
fn serialize_not_interested_test() {
    assert_eq!(Message::NotInterested.serialize(), vec![0, 0, 0, 1, 3]);
}

#[test]
fn deserialize_not_interested_test() {
    assert_eq!(Message::deserialize(vec![3]), Some(Message::NotInterested));
}

#[test]
fn serialize_have_test() {
    assert_eq!(Message::Have(42).serialize(), vec![0, 0, 0, 5, 4, 0, 0, 0, 42]);
}

#[test]
fn deserialize_have_test() {
    assert_eq!(Message::deserialize(vec![4, 0, 0, 0, 42]), Some(Message::Have(42)));
}

#[test]
fn serialize_bitfield_test() {
    let mut bitfield = Bitfield::init(9);
    bitfield.piece_acquired(2);
    let serialized_bytes = Message::Bitfield(bitfield.content.clone()).serialize();
    assert_eq!(serialized_bytes, vec![0, 0, 0, 3, 5u8, 32, 0]);
}

#[test]
fn deserialize_bitfield_test() {
    let mut bitfield = Bitfield::init(9);
    bitfield.piece_acquired(2);
    let deserialized_message = Message::deserialize(vec![5u8, 32, 0]);
    assert_eq!(deserialized_message, Some(Message::Bitfield(bitfield.content.clone())));
}

#[test]
fn serialize_request_test() {
    let expected_bytes: Vec<u8> = vec![0, 0, 0, 13, 6, 0, 0, 0, 1, 0, 0, 0, 2, 0, 0, 0, 3];
    assert_eq!(Message::Request(Block::new(1, 2, 3)).serialize(), expected_bytes);
}

#[test]
fn deserialize_request_test() {
    let bytes: Vec<u8> = vec![6, 0, 0, 0, 1, 0, 0, 0, 2, 0, 0, 0, 3];
    assert_eq!(Message::deserialize(bytes), Some(Message::Request(Block::new(1, 2, 3))));
}

#[test]
fn serialize_piece_test() {
    let data_block = DataBlock::new(1, 2, vec![1, 2, 3]);
    let expected_bytes = vec![0, 0, 0, 12, 7, 0, 0, 0, 1, 0, 0, 0, 2, 1, 2, 3];
    assert_eq!(Message::Piece(data_block).serialize(), expected_bytes);
}

#[test]
fn deserialize_piece_test() {
    let data_block = DataBlock::new(1, 2, vec![0x01, 0x02, 0x03]);
    let mut bytes = vec![7, 0, 0, 0, 1, 0, 0, 0, 2];
    bytes.extend(data_block.data.iter());
    assert_eq!(Message::deserialize(bytes), Some(Message::Piece(data_block)));
}

#[test]
fn serialize_cancel_test() {
    let expected_bytes: Vec<u8> = vec![0, 0, 0, 13, 8, 0, 0, 0, 1, 0, 0, 0, 2, 0, 0, 0, 3];
    assert_eq!(Message::Cancel(Block::new(1, 2, 3)).serialize(), expected_bytes);
}

#[test]
fn deserialize_cancel_test() {
    let bytes: Vec<u8> = vec![8, 0, 0, 0, 1, 0, 0, 0, 2, 0, 0, 0, 3];
    assert_eq!(Message::deserialize(bytes), Some(Message::Cancel(Block::new(1, 2, 3))));
}

#[test]
fn keep_alive_is_four_zero_bytes() {
    assert_eq!(Message::KeepAlive.serialize(), vec![0, 0, 0, 0]);
    assert_eq!(Message::deserialize(vec![]), Some(Message::KeepAlive));
}

#[test]
fn round_trip_every_variant() {
    let messages = vec![
        Message::KeepAlive,
        Message::Choke,
        Message::Unchoke,
        Message::Interested,
        Message::NotInterested,
        Message::Have(70000),
        Message::Bitfield(vec![]),
        Message::Bitfield(vec![0xAB, 0xCD, 0x01]),
        Message::Request(Block::new(300, 16384, 16384)),
        Message::Piece(DataBlock::new(5, 32768, vec![9; 16384])),
        Message::Cancel(Block::new(1, 2, 3)),
        Message::Port(6881),
    ];
    for m in messages {
        let frame = m.serialize();
        let len = u32::from_be_bytes([frame[0], frame[1], frame[2], frame[3]]) as usize;
        assert_eq!(len, frame.len() - 4);
        assert_eq!(Message::deserialize(frame[4..].to_vec()), Some(m));
    }
}

#[test]
fn unknown_tag_is_rejected() {
    assert_eq!(Message::deserialize(vec![10]), None);
    assert_eq!(Message::deserialize(vec![255, 1, 2]), None);
}

#[test]
fn oversized_messages_are_rejected() {
    let mut request = vec![6, 0, 0, 0, 1, 0, 0, 0, 2, 0, 0, 0, 3];
    request.push(0);
    assert_eq!(Message::deserialize(request), None);
    let mut piece = vec![7, 0, 0, 0, 1, 0, 0, 0, 2];
    piece.extend(vec![0u8; 16385]);
    assert_eq!(Message::deserialize(piece), None);
    let mut cancel = vec![8, 0, 0, 0, 1, 0, 0, 0, 2, 0, 0, 0, 3];
    cancel.push(7);
    assert_eq!(Message::deserialize(cancel), None);
}

#[test]
fn truncated_messages_are_rejected() {
    assert_eq!(Message::deserialize(vec![4, 0, 0]), None);
    assert_eq!(Message::deserialize(vec![6, 0, 0, 0, 1]), None);
    assert_eq!(Message::deserialize(vec![7, 0, 0, 0]), None);
}

#[test]
fn message_kind_checks() {
    assert!(Message::Interested.is_interested());
    assert!(!Message::Choke.is_interested());
    assert!(Message::NotInterested.is_not_interested());
    assert!(Message::Request(Block::new(0, 0, 1)).is_request());
    assert!(Message::Piece(DataBlock::new(0, 0, vec![])).is_piece());
    assert!(!Message::KeepAlive.is_piece());
}

#[test]
fn two_byte_port_is_accepted() {
    assert_eq!(Message::deserialize(vec![9, 0x1A, 0xE1]), Some(Message::Port(6881)));
    assert_eq!(Message::deserialize(vec![9, 0, 0, 0x1A, 0xE1]), None);
    assert_eq!(Message::Port(6881).serialize(), vec![0, 0, 0, 3, 9, 0x1A, 0xE1]);
    assert_eq!(Message::deserialize(vec![9, 1]), None);
}

#[test]
fn decode_names_the_error() {
    assert_eq!(Message::decode(vec![10]), Err(DecodeError::UnknownMessage));
    assert_eq!(Message::decode(vec![6; 14]), Err(DecodeError::OversizedMessage));
    let mut piece = vec![7u8, 0, 0, 0, 1, 0, 0, 0, 2];
    piece.extend(vec![0u8; 16385]);
    assert_eq!(Message::decode(piece), Err(DecodeError::OversizedMessage));
    assert_eq!(Message::decode(vec![6, 0, 0]), Err(DecodeError::Malformed));
    assert_eq!(Message::decode(vec![2]), Ok(Message::Interested));
}

#[test]
fn longest_frame_body_allowed() {
    assert_eq!(Message::max_body_length(10), 16393);
    assert_eq!(Message::max_body_length(200_000), 25_001);
    assert_eq!(Message::max_body_length(200_001), 25_002);
}
