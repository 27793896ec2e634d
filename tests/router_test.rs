use rust_torrent_client::choke::ChokeEvent;
use rust_torrent_client::events::InternalEvent;
use rust_torrent_client::layout::{Block, DataBlock};
use rust_torrent_client::router::{Bus, Delivery};
use rust_torrent_client::session::P2PEvent;
use rust_torrent_client::tracker::TrackerEvent;

fn peer_targets(out: &[Delivery]) -> Vec<usize> {
    out.iter()
        .map(|d| match d {
            Delivery::Peer(i, _) => *i,
            _ => usize::MAX,
        })
        .collect()
}

#[test]
fn block_downloaded_goes_to_choke_tracker_and_collector() {
    let mut bus = Bus::new(2);
    let (out, stop) = bus.route(InternalEvent::BlockDownloaded(1, DataBlock::new(0, 0, vec![1, 2, 3])));
    assert!(!stop);
    assert_eq!(out.len(), 3);
    assert!(matches!(out[0], Delivery::Choke(ChokeEvent::BlockDownloadedFromPeer(1))));
    assert!(matches!(out[1], Delivery::Tracker(TrackerEvent::Downloaded(3))));
    assert!(matches!(&out[2], Delivery::Collector(d) if d.data == vec![1, 2, 3]));
}

#[test]
fn block_stored_reaches_connected_sessions_only() {
    let mut bus = Bus::new(3);
    bus.route(InternalEvent::PeerConnectionEstablished(0));
    bus.route(InternalEvent::PeerConnectionEstablished(2));
    assert_eq!(bus.connected_peers, 2);
    let (out, _) = bus.route(InternalEvent::BlockStored(Block::new(0, 0, 16384)));
    assert_eq!(peer_targets(&out), vec![0, 2]);
    assert!(matches!(out[0], Delivery::Peer(0, P2PEvent::BlockStored(_))));
}

#[test]
fn piece_stored_reaches_every_session() {
    let mut bus = Bus::new(3);
    let (out, _) = bus.route(InternalEvent::PieceStored(4));
    assert_eq!(peer_targets(&out), vec![0, 1, 2]);
    assert_eq!(bus.stored_pieces, 1);
}

#[test]
fn terminated_session_is_unregistered() {
    let mut bus = Bus::new(3);
    bus.route(InternalEvent::PeerConnectionEstablished(1));
    let (out, _) = bus.route(InternalEvent::P2PTransferTerminated(1));
    assert!(matches!(out[0], Delivery::Choke(ChokeEvent::UnregisterPeer(1))));
    assert_eq!(bus.connected_peers, 0);
    let (out, _) = bus.route(InternalEvent::ChokePeer(1));
    assert!(out.is_empty());
    let (out, _) = bus.route(InternalEvent::UnchokePeer(2));
    assert!(matches!(out[0], Delivery::Peer(2, P2PEvent::UnchokePeer)));
}

#[test]
fn download_complete_stops_the_bus() {
    let mut bus = Bus::new(1);
    let (out, stop) = bus.route(InternalEvent::DownloadComplete);
    assert!(stop);
    assert!(matches!(out[0], Delivery::Tracker(TrackerEvent::CompletedAnnounce)));
}

#[test]
fn interest_and_uploads_are_forwarded() {
    let mut bus = Bus::new(1);
    let (out, _) = bus.route(InternalEvent::ClientInterestedInPeer(0, true));
    assert!(matches!(out[0], Delivery::Choke(ChokeEvent::ClientInterestedInPeer(0, true))));
    let (out, _) = bus.route(InternalEvent::PeerInterestedInClient(0, false));
    assert!(matches!(out[0], Delivery::Choke(ChokeEvent::PeerInterestedInClient(0, false))));
    let (out, _) = bus.route(InternalEvent::BlockUploaded(16384));
    assert!(matches!(out[0], Delivery::Tracker(TrackerEvent::Uploaded(16384))));
}
