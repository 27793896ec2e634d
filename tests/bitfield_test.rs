use rust_torrent_client::bitfield::Bitfield;

#[test]
fn entities_bitfield_initialization_test() {
    let bitfield: Bitfield = Bitfield::init(4);
    assert_eq!(bitfield.content.len(), 1);
    assert_eq!(bitfield.content[0], 0);
}

#[test]
fn entities_bitfield_update_test() {
    let mut bitfield: Bitfield = Bitfield::init(4);
    bitfield.piece_acquired(3);
    bitfield.piece_acquired(1);
    bitfield.piece_acquired(2);
    assert_eq!(bitfield.content[0], 112);
}

#[test]
fn entities_bitfield_has_test() {
    let mut bitfield: Bitfield = Bitfield::init(4);
    bitfield.piece_acquired(1);
    bitfield.piece_acquired(2);
    assert_eq!(bitfield.has_piece(1) && bitfield.has_piece(2), true);
    assert_eq!(!bitfield.has_piece(0) && !bitfield.has_piece(3), true);
}

#[test]
fn bitfield_has_any_missing_pieces_from_test() {
    let mut bitfield1 = Bitfield::init(4);
    let mut bitfield2 = Bitfield::init(4);
    assert_eq!(bitfield1.has_any_missing_pieces_from(&bitfield2), false);
    assert_eq!(bitfield2.has_any_missing_pieces_from(&bitfield1), false);

    bitfield2.piece_acquired(1);
    assert_eq!(bitfield1.has_any_missing_pieces_from(&bitfield2), false);
    assert_eq!(bitfield2.has_any_missing_pieces_from(&bitfield1), true);

    bitfield1.piece_acquired(1);
    assert_eq!(bitfield1.has_any_missing_pieces_from(&bitfield2), false);
    assert_eq!(bitfield2.has_any_missing_pieces_from(&bitfield1), false);

    bitfield1.piece_acquired(3);
    assert_eq!(bitfield1.has_any_missing_pieces_from(&bitfield2), true);
    assert_eq!(bitfield2.has_any_missing_pieces_from(&bitfield1), false);
}

#[test]
fn bitfield_to_available_pieces_vec_test() {
    let mut bitfield = Bitfield::init(12);
    let mut pieces_available: Vec<usize> = Vec::new();
    assert_eq!(bitfield.to_available_pieces_vec(), pieces_available);

    bitfield.piece_acquired(5);
    pieces_available.push(5);
    assert_eq!(bitfield.to_available_pieces_vec(), pieces_available);

    bitfield.piece_acquired(11);
    pieces_available.push(11);
    assert_eq!(bitfield.to_available_pieces_vec(), pieces_available);
}

#[test]
fn state_bitfield_initialization_test() {
    let bitfield: Bitfield = Bitfield::init(4);
    assert_eq!(bitfield.content.len(), 1);
    assert_eq!(bitfield.content[0], 0);
}

#[test]
fn state_bitfield_update_test() {
    let mut bitfield: Bitfield = Bitfield::init(4);
    bitfield.piece_acquired(3);
    bitfield.piece_acquired(1);
    bitfield.piece_acquired(2);
    assert_eq!(bitfield.content[0], 112);
}

#[test]
fn state_bitfield_has_test() {
    let mut bitfield: Bitfield = Bitfield::init(4);
    bitfield.piece_acquired(1);
    bitfield.piece_acquired(2);
    assert_eq!(bitfield.has_piece(1) && bitfield.has_piece(2), true);
    assert_eq!(!bitfield.has_piece(0) && !bitfield.has_piece(3), true);
}

#[test]
fn bitfield_nine_pieces_piece_two_set() {
    let mut bitfield = Bitfield::init(9);
    bitfield.piece_acquired(2);
    assert_eq!(bitfield.content, vec![0x20, 0x00]);
    assert!(bitfield.has_piece(2));
    assert!(!bitfield.has_piece(0));
    assert!(!bitfield.has_piece(8));
}

#[test]
fn bitfield_padding_stays_zero() {
    let mut bitfield = Bitfield::init(9);
    for i in 0..9 {
        bitfield.piece_acquired(i);
    }
    assert_eq!(bitfield.content, vec![0xFF, 0x80]);
    for i in 9..16 {
        assert!(!bitfield.has_piece(i));
    }
}

#[test]
fn bitfield_lists_last_bit_of_a_byte() {
    let mut bitfield = Bitfield::init(16);
    bitfield.piece_acquired(7);
    bitfield.piece_acquired(15);
    assert_eq!(bitfield.to_available_pieces_vec(), vec![7, 15]);
}

#[test]
fn bitfield_longer_than_other_counts_as_missing() {
    let longer = Bitfield::new(vec![0, 1]);
    let shorter = Bitfield::new(vec![0]);
    assert!(longer.has_any_missing_pieces_from(&shorter));
    assert!(!shorter.has_any_missing_pieces_from(&longer));
}

#[test]
fn bitfield_out_of_range_has_no_piece() {
    let bitfield = Bitfield::init(4);
    assert!(!bitfield.has_piece(100));
}
