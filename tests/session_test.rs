use rust_torrent_client::bitfield::Bitfield;
use rust_torrent_client::events::InternalEvent;
use rust_torrent_client::layout::{Block, DataBlock};
use rust_torrent_client::message::Message;
use rust_torrent_client::mocks;
use rust_torrent_client::picker::RarestPiecePicker;
use rust_torrent_client::session::{
    handle, pick_blocks, serve_block, update_clients_interested_status, HandlerResult, P2PError, P2PEvent,
    P2PState,
};

fn picker(pieces: usize) -> RarestPiecePicker {
    RarestPiecePicker::init(mocks::generate_mock_layout(pieces, 2, 2))
}

#[test]
fn client_interested_status_update_when_uninterested_and_peer_has_needed_data_test() {
    let mut result = HandlerResult::new();
    let mut state = P2PState::new(0, Bitfield::init(5), 5);
    state.client_is_interested = false;
    state.peer_bitfield.piece_acquired(0);
    update_clients_interested_status(&mut state, &mut result);
    assert!(state.client_is_interested);
    assert_eq!(result.internal_events.len(), 1);
    assert_eq!(result.messages_for_peer.len(), 1);
    assert!(result.messages_for_peer[0].is_interested())
}

#[test]
fn client_interested_status_update_when_uninterested_and_peer_has_no_needed_data_test() {
    let mut result = HandlerResult::new();
    let mut state = P2PState::new(0, Bitfield::init(5), 5);
    state.client_is_interested = false;
    update_clients_interested_status(&mut state, &mut result);
    assert!(!state.client_is_interested);
    assert!(result.internal_events.is_empty());
    assert!(result.messages_for_peer.is_empty());
}

#[test]
fn client_interested_status_update_when_interested_and_peer_has_needed_data_test() {
    let mut result = HandlerResult::new();
    let mut state = P2PState::new(0, Bitfield::init(5), 5);
    state.client_is_interested = true;
    state.peer_bitfield.piece_acquired(0);
    update_clients_interested_status(&mut state, &mut result);
    assert!(state.client_is_interested);
    assert!(result.internal_events.is_empty());
    assert!(result.messages_for_peer.is_empty());
}

#[test]
fn client_interested_status_update_when_interested_and_peer_has_no_needed_data_test() {
    let mut result = HandlerResult::new();
    let mut state = P2PState::new(0, Bitfield::init(5), 5);
    state.client_is_interested = true;
    update_clients_interested_status(&mut state, &mut result);
    assert!(!state.client_is_interested);
    assert_eq!(result.internal_events.len(), 1);
    assert_eq!(result.messages_for_peer.len(), 1);
    assert!(result.messages_for_peer[0].is_not_interested());
}

#[test]
fn handle_choke_message_test() {
    let mut state = P2PState::new(0, Bitfield::init(5), 5);
    let mut picker = picker(5);
    state.client_is_choked = false;
    let _ = handle(P2PEvent::PeerMessageReceived(Ok(Message::Choke)), &mut state, &mut picker);
    assert!(state.client_is_choked);
}

#[test]
fn handle_unchoke_message_test() {
    let mut state = P2PState::new(0, Bitfield::init(5), 5);
    let mut picker = picker(5);
    let _ = handle(P2PEvent::PeerMessageReceived(Ok(Message::Unchoke)), &mut state, &mut picker);
    assert!(!state.client_is_choked);
}

#[test]
fn handle_interested_message_test() {
    let mut state = P2PState::new(0, Bitfield::init(5), 5);
    let mut picker = picker(5);
    let result = handle(P2PEvent::PeerMessageReceived(Ok(Message::Interested)), &mut state, &mut picker).unwrap();
    assert!(state.peer_is_interested);
    assert_eq!(result.internal_events, vec![InternalEvent::PeerInterestedInClient(0, true)]);
}

#[test]
fn handle_not_interested_message_test() {
    let mut state = P2PState::new(0, Bitfield::init(5), 5);
    let mut picker = picker(5);
    state.peer_is_interested = true;
    let _ = handle(P2PEvent::PeerMessageReceived(Ok(Message::NotInterested)), &mut state, &mut picker);
    assert!(!state.peer_is_interested);
}

#[test]
fn handle_have_message_test() {
    let mut state = P2PState::new(0, Bitfield::init(5), 5);
    let mut picker = picker(5);
    let result = handle(P2PEvent::PeerMessageReceived(Ok(Message::Have(2))), &mut state, &mut picker).unwrap();
    assert!(state.peer_bitfield.has_piece(2));
    assert!(state.client_is_interested);
    assert_eq!(result.messages_for_peer, vec![Message::Interested]);
    assert_eq!(picker.piece_download_state[2].availability, 1);
}

#[test]
fn handle_bitfield_message_test() {
    let mut state = P2PState::new(0, Bitfield::init(5), 5);
    let mut picker = picker(5);
    let _ = handle(P2PEvent::PeerMessageReceived(Ok(Message::Bitfield(vec![1]))), &mut state, &mut picker);
    assert_eq!(state.peer_bitfield.content, vec![1]);
}

#[test]
fn handle_request_message_test() {
    let mut state = P2PState::new(0, Bitfield::init(5), 5);
    state.peer_is_choked = false;
    state.peer_is_interested = true;
    state.client_bitfield.piece_acquired(0);
    let mut picker = picker(5);
    let block = Block::new(0, 0, 16384);
    let mut result = handle(P2PEvent::PeerMessageReceived(Ok(Message::Request(block))), &mut state, &mut picker).unwrap();
    assert_eq!(result.block_to_serve, Some(block));
    serve_block(&block, vec![7; 16384], &mut result);
    assert!(result.messages_for_peer.iter().any(|msg| msg.is_piece()));
    assert_eq!(result.internal_events, vec![InternalEvent::BlockUploaded(16384)]);
}

#[test]
fn handle_piece_message_test() {
    let mut state = P2PState::new(0, Bitfield::init(5), 5);
    state.peer_is_choked = false;
    state.peer_is_interested = true;
    state.client_bitfield.piece_acquired(0);
    state.ongoing_requests.push(Block::new(0, 0, 0));
    let mut picker = picker(5);
    let msg = P2PEvent::PeerMessageReceived(Ok(Message::Piece(DataBlock::new(0, 0, vec![]))));
    let result = handle(msg, &mut state, &mut picker).unwrap();
    assert!(state.ongoing_requests.is_empty());
    assert!(result.internal_events.iter().any(|msg| msg.is_block_downloaded()));
}

#[test]
fn request_refused_when_peer_choked_or_oversized() {
    let mut state = P2PState::new(0, Bitfield::init(5), 5);
    state.peer_is_interested = true;
    state.client_bitfield.piece_acquired(0);
    let mut picker = picker(5);
    let r = handle(P2PEvent::PeerMessageReceived(Ok(Message::Request(Block::new(0, 0, 16)))), &mut state, &mut picker).unwrap();
    assert_eq!(r.block_to_serve, None);
    state.peer_is_choked = false;
    let r = handle(P2PEvent::PeerMessageReceived(Ok(Message::Request(Block::new(0, 0, 16385)))), &mut state, &mut picker).unwrap();
    assert_eq!(r.block_to_serve, None);
    let r = handle(P2PEvent::PeerMessageReceived(Ok(Message::Request(Block::new(1, 0, 16)))), &mut state, &mut picker).unwrap();
    assert_eq!(r.block_to_serve, None);
}

#[test]
fn unchoke_then_have_requests_blocks() {
    let mut state = P2PState::new(3, Bitfield::init(2), 2);
    let mut picker = picker(2);
    let _ = handle(P2PEvent::PeerMessageReceived(Ok(Message::Unchoke)), &mut state, &mut picker);
    let result = handle(P2PEvent::PeerMessageReceived(Ok(Message::Have(1))), &mut state, &mut picker).unwrap();
    assert_eq!(
        result.messages_for_peer,
        vec![
            Message::Interested,
            Message::Request(Block::new(1, 0, 16384)),
            Message::Request(Block::new(1, 16384, 16384)),
        ]
    );
    assert_eq!(result.internal_events, vec![InternalEvent::ClientInterestedInPeer(3, true)]);
    assert_eq!(state.ongoing_requests.len(), 2);
}

#[test]
fn block_stored_elsewhere_cancels_request() {
    let mut state = P2PState::new(0, Bitfield::init(2), 2);
    let mut picker = picker(2);
    state.ongoing_requests.push(Block::new(0, 0, 16384));
    let r = handle(P2PEvent::BlockStored(Block::new(0, 0, 16384)), &mut state, &mut picker).unwrap();
    assert_eq!(r.messages_for_peer, vec![Message::Cancel(Block::new(0, 0, 16384))]);
    assert!(state.ongoing_requests.is_empty());
    let r = handle(P2PEvent::BlockStored(Block::new(0, 0, 16384)), &mut state, &mut picker).unwrap();
    assert!(r.messages_for_peer.is_empty());
}

#[test]
fn piece_stored_sends_have_and_drops_interest() {
    let mut state = P2PState::new(0, Bitfield::init(2), 2);
    let mut picker = picker(2);
    state.peer_bitfield.piece_acquired(1);
    state.client_is_interested = true;
    let r = handle(P2PEvent::PieceStored(1), &mut state, &mut picker).unwrap();
    assert!(state.client_bitfield.has_piece(1));
    assert_eq!(r.messages_for_peer, vec![Message::NotInterested, Message::Have(1)]);
    assert_eq!(r.internal_events, vec![InternalEvent::ClientInterestedInPeer(0, false)]);
}

#[test]
fn bus_commands_reach_the_peer() {
    let mut state = P2PState::new(0, Bitfield::init(2), 2);
    let mut picker = picker(2);
    let r = handle(P2PEvent::UnchokePeer, &mut state, &mut picker).unwrap();
    assert!(!state.peer_is_choked);
    assert_eq!(r.messages_for_peer, vec![Message::Unchoke]);
    let r = handle(P2PEvent::ChokePeer, &mut state, &mut picker).unwrap();
    assert!(state.peer_is_choked);
    assert_eq!(r.messages_for_peer, vec![Message::Choke]);
    let r = handle(P2PEvent::SendKeepAlive, &mut state, &mut picker).unwrap();
    assert_eq!(r.messages_for_peer, vec![Message::KeepAlive]);
}

#[test]
fn have_beyond_bitfield_ends_session() {
    let mut state = P2PState::new(0, Bitfield::init(2), 2);
    let mut picker = picker(2);
    let r = handle(P2PEvent::PeerMessageReceived(Ok(Message::Have(8))), &mut state, &mut picker);
    assert!(matches!(r, Err(P2PError::InvalidPieceIndex(8))));
    let r = handle(P2PEvent::PeerMessageReceived(Err(P2PError::SocketClosed)), &mut state, &mut picker);
    assert!(matches!(r, Err(P2PError::SocketClosed)));
}

#[test]
fn peer_bitfield_with_padding_bits_is_accepted() {
    let mut state = P2PState::new(0, Bitfield::init(5), 5);
    let mut picker = picker(5);
    let r = handle(P2PEvent::PeerMessageReceived(Ok(Message::Bitfield(vec![0x87]))), &mut state, &mut picker);
    assert!(r.is_ok());
    assert_eq!(state.peer_bitfield.content, vec![0x87]);
    assert!(state.peer_bitfield.has_piece(0));
    assert!(state.peer_bitfield.has_piece(7));
    assert_eq!(picker.piece_download_state[0].availability, 1);
}

#[test]
fn pick_blocks_test() {
    let mut result = HandlerResult::new();
    let mut state = P2PState::new(0, Bitfield::init(5), 5);
    state.client_is_interested = true;
    state.client_is_choked = false;
    state.peer_bitfield.piece_acquired(0);
    let mut picker = picker(5);
    pick_blocks(&mut state, &mut result, &mut picker);
    assert!(result.internal_events.is_empty());
    assert_eq!(state.ongoing_requests.len(), 2);
    assert_eq!(result.messages_for_peer.len(), 2);
    assert!(result.messages_for_peer.iter().all(|msg| msg.is_request()));
}

#[test]
fn pick_blocks_when_client_choked_test() {
    let mut result = HandlerResult::new();
    let mut state = P2PState::new(0, Bitfield::init(5), 5);
    state.client_is_choked = true;
    state.client_is_interested = true;
    state.peer_bitfield.piece_acquired(0);
    let initial_state = state.clone();
    let mut picker = picker(5);
    pick_blocks(&mut state, &mut result, &mut picker);
    assert!(result.internal_events.is_empty());
    assert!(result.messages_for_peer.is_empty());
    assert_eq!(state, initial_state);
}

#[test]
fn pick_blocks_when_client_not_interested_test() {
    let mut result = HandlerResult::new();
    let mut state = P2PState::new(0, Bitfield::init(5), 5);
    state.client_is_choked = false;
    state.client_is_interested = false;
    state.peer_bitfield.piece_acquired(0);
    let initial_state = state.clone();
    let mut picker = picker(5);
    pick_blocks(&mut state, &mut result, &mut picker);
    assert!(result.internal_events.is_empty());
    assert!(result.messages_for_peer.is_empty());
    assert_eq!(state, initial_state);
}

#[test]
fn pick_blocks_when_requests_are_full() {
    let mut result = HandlerResult::new();
    let mut state = P2PState::new(0, Bitfield::init(5), 5);
    state.client_is_choked = false;
    state.client_is_interested = true;
    state.peer_bitfield.piece_acquired(0);
    for i in 0..10 {
        state.ongoing_requests.push(Block::new(4, i * 16384, 16384));
    }
    let mut picker = picker(5);
    pick_blocks(&mut state, &mut result, &mut picker);
    assert!(result.messages_for_peer.is_empty());
    assert_eq!(state.ongoing_requests.len(), 10);
}

#[test]
fn new_session_state_is_exact() {
    let state = P2PState::new(4, Bitfield::init(9), 9);
    assert_eq!(state.peer_bitfield, Bitfield::init(9));
    assert_eq!(state.peer_bitfield.content, vec![0, 0]);
    assert!(state.client_is_choked && state.peer_is_choked);
    assert!(!state.client_is_interested && !state.peer_is_interested);
}

#[test]
fn errors_leave_the_session_as_it_was() {
    let mut state = P2PState::new(0, Bitfield::init(2), 2);
    let mut picker = picker(2);
    let before = state.clone();
    let r = handle(P2PEvent::PeerMessageReceived(Err(P2PError::OversizedMessage)), &mut state, &mut picker);
    assert!(matches!(r, Err(P2PError::OversizedMessage)));
    let r = handle(P2PEvent::PeerMessageReceived(Ok(Message::Have(16))), &mut state, &mut picker);
    assert!(matches!(r, Err(P2PError::InvalidPieceIndex(16))));
    assert_eq!(state, before);
    assert_eq!(picker.piece_download_state[0].availability, 0);
}
