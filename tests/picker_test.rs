use rust_torrent_client::bitfield::Bitfield;
use rust_torrent_client::layout::{Block, TorrentLayout};
use rust_torrent_client::mocks;
use rust_torrent_client::picker::{BlockStatus, RarestPiecePicker};

fn layout(pieces: usize, piece_length: usize, last_piece_length: usize, block_size: usize) -> TorrentLayout {
    TorrentLayout::new(pieces, piece_length, last_piece_length, block_size, String::new()).unwrap()
}

#[test]
fn test_piece_pick_no_pieces_available() {
    let layout = mocks::generate_mock_layout(2, 2, 2);
    let mut piece_picker = RarestPiecePicker::init(layout);
    let peer_bitfield = Bitfield::init(2);
    let blocks = piece_picker.pick(&peer_bitfield, 2);
    assert!(blocks.is_empty());
}

#[test]
fn test_piece_pick() {
    let layout = mocks::generate_mock_layout(2, 2, 2);
    let mut piece_picker = RarestPiecePicker::init(layout);
    let mut peer_bitfield = Bitfield::init(2);
    peer_bitfield.piece_acquired(0);
    let blocks = piece_picker.pick(&peer_bitfield, 2);
    assert_eq!(blocks.len(), 2);
    assert_eq!(blocks[0].piece_idx, blocks[1].piece_idx);
}

#[test]
fn test_pick_from_already_picked_blocks() {
    let layout = mocks::generate_mock_layout(2, 2, 2);
    let mut piece_picker = RarestPiecePicker::init(layout);
    let mut peer_bitfield = Bitfield::init(2);
    peer_bitfield.piece_acquired(0);
    piece_picker.pick(&peer_bitfield, 2);
    let blocks = piece_picker.pick(&peer_bitfield, 2);
    assert_eq!(blocks.len(), 1);
    assert_eq!(blocks[0].piece_idx, 0);
}

#[test]
fn test_rarest_piece_prioritized() {
    let layout = mocks::generate_mock_layout(2, 2, 2);
    let mut piece_picker = RarestPiecePicker::init(layout);
    let mut peer_bitfield = Bitfield::init(2);
    peer_bitfield.piece_acquired(0);
    peer_bitfield.piece_acquired(1);
    piece_picker.increase_availability_for_piece(0);
    let blocks = piece_picker.pick(&peer_bitfield, 2);
    assert_eq!(blocks.len(), 2);
    assert_eq!(blocks[0].piece_idx, 1);
    assert_eq!(blocks[1].piece_idx, 1);
}

#[test]
fn test_piece_with_some_picked_blocks_prioritized() {
    let layout = mocks::generate_mock_layout(2, 4, 4);
    let mut piece_picker = RarestPiecePicker::init(layout);
    let mut peer_bitfield = Bitfield::init(2);
    peer_bitfield.piece_acquired(0);
    peer_bitfield.piece_acquired(1);
    let piece_idx = piece_picker.pick(&peer_bitfield, 2)[0].piece_idx;
    piece_picker.increase_availability_for_piece(piece_idx);
    let blocks = piece_picker.pick(&peer_bitfield, 2);
    assert_eq!(blocks.len(), 2);
    assert_eq!(blocks[0].piece_idx, piece_idx);
    assert_eq!(blocks[1].piece_idx, piece_idx);
}

#[test]
fn test_remove_blocks_in_piece() {
    let layout = mocks::generate_mock_layout(2, 2, 2);
    let mut piece_picker = RarestPiecePicker::init(layout);
    let mut peer = Bitfield::init(2);
    peer.piece_acquired(0);
    let blocks = piece_picker.pick(&peer, 2);
    blocks.iter().for_each(|block| piece_picker.remove_block(block));
    let blocks = piece_picker.pick(&peer, 2);
    assert!(blocks.is_empty());
}

#[test]
fn test_reinsert_piece() {
    let layout = mocks::generate_mock_layout(2, 2, 2);
    let mut piece_picker = RarestPiecePicker::init(layout);
    let mut peer = Bitfield::init(2);
    peer.piece_acquired(0);
    let blocks = piece_picker.pick(&peer, 2);
    piece_picker.remove_block(&blocks[0]);
    piece_picker.remove_block(&blocks[1]);
    piece_picker.reinsert_piece(0);
    let blocks = piece_picker.pick(&peer, 2);
    assert_eq!(blocks.len(), 2);
}

#[test]
fn test_picker_init() {
    let piece_picker = RarestPiecePicker::init(layout(5, 16384, 8192, 16));
    assert_eq!(piece_picker.priority_score_sorted_pieces.len(), 5);
    assert_eq!(piece_picker.piece_lookup_table.len(), 5);
    assert_eq!(piece_picker.piece_download_state.len(), 5);
}

#[test]
fn test_pick_no_blocks_available() {
    let mut piece_picker = RarestPiecePicker::init(layout(3, 8192, 4096, 16));
    let peer_bitfield = Bitfield::init(2);
    let pick_result = piece_picker.pick(&peer_bitfield, 2);
    assert!(pick_result.is_empty());
}

#[test]
fn test_pick_some_blocks_available() {
    let mut piece_picker = RarestPiecePicker::init(layout(3, 8192, 4096, 16));
    let mut peer_bitfield = Bitfield::init(3);
    peer_bitfield.piece_acquired(0);
    let pick_result = piece_picker.pick(&peer_bitfield, 10);
    assert_eq!(pick_result.len(), 10);
    assert_eq!(pick_result[0].piece_idx, 0);
}

#[test]
fn picker_remove_block_twice_same_as_once() {
    let layout = mocks::generate_mock_layout(2, 3, 3);
    let mut picker = RarestPiecePicker::init(layout);
    let mut peer = Bitfield::init(2);
    peer.piece_acquired(0);
    let blocks = picker.pick(&peer, 1);
    picker.remove_block(&blocks[0]);
    let statuses: Vec<BlockStatus> = picker.piece_download_state[0].status.clone();
    let table = picker.priority_score_sorted_pieces.clone();
    picker.remove_block(&blocks[0]);
    assert_eq!(picker.piece_download_state[0].status, statuses);
    assert_eq!(picker.priority_score_sorted_pieces, table);
}

#[test]
fn picker_last_piece_and_last_block_are_shorter() {
    let layout = layout(2, 40000, 20000, 16384);
    assert_eq!(layout.blocks_in_piece(0), 3);
    assert_eq!(layout.block_length(0, 2), 40000 - 2 * 16384);
    assert_eq!(layout.blocks_in_piece(1), 2);
    assert_eq!(layout.block_length(1, 1), 20000 - 16384);
    let mut picker = RarestPiecePicker::init(layout);
    let mut peer = Bitfield::init(2);
    peer.piece_acquired(1);
    let blocks = picker.pick(&peer, 10);
    assert_eq!(blocks, vec![Block::new(1, 0, 16384), Block::new(1, 16384, 20000 - 16384)]);
}

#[test]
fn picker_single_piece_single_block() {
    let layout = layout(1, 100, 100, 16384);
    let mut picker = RarestPiecePicker::init(layout);
    let mut peer = Bitfield::init(1);
    peer.piece_acquired(0);
    assert_eq!(picker.pick(&peer, 10), vec![Block::new(0, 0, 100)]);
    assert_eq!(picker.pick(&peer, 10), vec![Block::new(0, 0, 100)]);
    picker.remove_block(&Block::new(0, 0, 100));
    assert!(picker.pick(&peer, 10).is_empty());
}

#[test]
fn picker_empty_peer_bitfield_gives_nothing() {
    let mut picker = RarestPiecePicker::init(mocks::generate_mock_layout(3, 2, 1));
    let peer = Bitfield::init(3);
    assert!(picker.pick(&peer, 10).is_empty());
    assert_eq!(picker.piece_download_state[0].status, vec![BlockStatus::Unrequested; 2]);
}

#[test]
fn picker_zero_blocks_asked_gives_nothing() {
    let mut picker = RarestPiecePicker::init(mocks::generate_mock_layout(1, 2, 2));
    let mut peer = Bitfield::init(1);
    peer.piece_acquired(0);
    assert!(picker.pick(&peer, 0).is_empty());
}

#[test]
fn picker_availability_lists() {
    let mut picker = RarestPiecePicker::init(mocks::generate_mock_layout(3, 1, 1));
    picker.increase_availability_for_pieces(vec![0, 0, 1]);
    assert_eq!(picker.piece_download_state[0].availability, 2);
    assert_eq!(picker.piece_download_state[1].availability, 1);
    picker.decrease_availability_for_pieces(vec![0, 2]);
    assert_eq!(picker.piece_download_state[0].availability, 1);
    assert_eq!(picker.piece_download_state[2].availability, -1);
    let mut peer = Bitfield::init(3);
    peer.piece_acquired(0);
    peer.piece_acquired(1);
    peer.piece_acquired(2);
    assert_eq!(picker.pick(&peer, 1)[0].piece_idx, 2);
}

#[test]
fn picker_reinsert_restores_fresh_state() {
    let mut picker = RarestPiecePicker::init(mocks::generate_mock_layout(1, 2, 2));
    let mut peer = Bitfield::init(1);
    peer.piece_acquired(0);
    let blocks = picker.pick(&peer, 2);
    for b in blocks.iter() {
        picker.remove_block(b);
    }
    assert!(picker.piece_download_state[0].all_removed);
    picker.reinsert_piece(0);
    let st = &picker.piece_download_state[0];
    assert!(!st.started && !st.all_in_transfer && !st.all_removed);
    assert_eq!(picker.priority_score_sorted_pieces[0].1, 1000);
}

#[test]
fn availability_counts_every_advertisement() {
    let mut picker = RarestPiecePicker::init(mocks::generate_mock_layout(2, 1, 1));
    for _ in 0..1500 {
        picker.increase_availability_for_piece(0);
    }
    assert_eq!(picker.piece_download_state[0].availability, 1500);
    picker.decrease_availability_for_pieces(vec![0; 1499]);
    assert_eq!(picker.piece_download_state[0].availability, 1);
    let mut peer = Bitfield::init(2);
    peer.piece_acquired(0);
    peer.piece_acquired(1);
    assert_eq!(picker.pick(&peer, 1)[0].piece_idx, 1);
}

#[test]
fn fully_requested_piece_sorts_after_much_rarer_ones() {
    let mut picker = RarestPiecePicker::init(mocks::generate_mock_layout(2, 1, 1));
    for _ in 0..5000 {
        picker.increase_availability_for_piece(1);
    }
    let mut peer = Bitfield::init(2);
    peer.piece_acquired(0);
    peer.piece_acquired(1);
    assert_eq!(picker.pick(&peer, 1), vec![Block::new(0, 0, 16384)]);
    assert_eq!(picker.pick(&peer, 1), vec![Block::new(1, 0, 16384)]);
}
