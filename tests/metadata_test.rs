use rust_torrent_client::config::Config;
use rust_torrent_client::layout::TorrentLayout;
use rust_torrent_client::message::{frame_body_length, Handshake};
use rust_torrent_client::session::P2PError;
use rust_torrent_client::torrent::{compute_info_hash, get_pieces_hashes, parse_compact_peers, Info, Peer, Torrent};
use rust_torrent_client::tracker::{TrackerEvent, TrackerReporter, TrackerRequestEvent, TorrentTrackerClient};

fn torrent(length: Option<u64>, piece_length: u64, pieces: usize) -> Torrent {
    Torrent {
        info: Info { length, name: "out.bin".to_string(), pieces: vec![0; 20 * pieces], piece_length },
        announce: "http://tracker/announce".to_string(),
        info_hash: vec![7; 20],
        piece_hashes: vec![vec![0; 20]; pieces],
    }
}

#[test]
fn layout_from_torrent_with_short_last_piece() {
    let layout = TorrentLayout::from_torrent(&torrent(Some(100_000), 40_000, 3)).unwrap();
    assert_eq!(layout.pieces, 3);
    assert_eq!(layout.piece_length(0), 40_000);
    assert_eq!(layout.piece_length(2), 20_000);
    assert_eq!(layout.blocks_in_piece(0), 3);
    assert_eq!(layout.block_length(0, 2), 40_000 - 32_768);
    assert_eq!(layout.blocks_in_piece(2), 2);
    assert_eq!(layout.block_length(2, 1), 20_000 - 16_384);
    assert_eq!(layout.output_file_length, 100_000);
    assert_eq!(layout.output_file_path, "out.bin");
    assert_eq!(layout.file_offset(2, 5), 80_005);
}

#[test]
fn layout_from_torrent_rejects_inconsistent_lengths() {
    assert!(TorrentLayout::from_torrent(&torrent(None, 40_000, 3)).is_none());
    assert!(TorrentLayout::from_torrent(&torrent(Some(80_000), 40_000, 3)).is_none());
    assert!(TorrentLayout::from_torrent(&torrent(Some(120_001), 40_000, 3)).is_none());
    assert!(TorrentLayout::from_torrent(&torrent(Some(10), 40_000, 0)).is_none());
}

#[test]
fn layout_one_piece_one_block() {
    let layout = TorrentLayout::from_torrent(&torrent(Some(10), 16_384, 1)).unwrap();
    assert_eq!(layout.blocks_in_piece(0), 1);
    assert_eq!(layout.block_length(0, 0), 10);
}

#[test]
fn piece_hashes_split_in_twenties() {
    let bytes: Vec<u8> = (0..40).collect();
    let hashes = get_pieces_hashes(&bytes).unwrap();
    assert_eq!(hashes.len(), 2);
    assert_eq!(hashes[1], (20..40).collect::<Vec<u8>>());
    assert!(get_pieces_hashes(&vec![0; 21]).is_none());
}

#[test]
fn info_hash_is_sha1_of_info_bytes() {
    let h = compute_info_hash(&b"abc".to_vec());
    assert_eq!(
        h,
        vec![
            0xa9, 0x99, 0x3e, 0x36, 0x47, 0x06, 0x81, 0x6a, 0xba, 0x3e, 0x25, 0x71, 0x78, 0x50, 0xc2, 0x6c,
            0x9c, 0xd0, 0xd8, 0x9d
        ]
    );
}

#[test]
fn compact_peers_are_parsed() {
    let bytes = vec![127, 0, 0, 1, 0x1A, 0xE1, 10, 1, 2, 3, 0, 80, 9];
    let peers = parse_compact_peers(&bytes);
    assert_eq!(peers, vec![Peer { ip: 0x7F000001, port: 6881 }, Peer { ip: 0x0A010203, port: 80 }]);
}

#[test]
fn handshake_layout_and_check() {
    let info_hash = vec![1u8; 20];
    let id = vec![2u8; 20];
    let hs = Handshake::new(&info_hash, &id);
    assert_eq!(hs.content.len(), 68);
    assert_eq!(hs.content[0], 19);
    assert_eq!(&hs.content[1..20], b"BitTorrent protocol");
    assert_eq!(&hs.content[20..28], &[0u8; 8]);
    assert_eq!(Handshake::check(&hs.content, &info_hash), Ok(()));
    assert_eq!(Handshake::check(&hs.content, &vec![3u8; 20]), Err(P2PError::ProtocolMismatch));
    assert_eq!(Handshake::check(&hs.content[..67].to_vec(), &info_hash), Err(P2PError::HandshakeFailed));
    let mut bad = hs.content.clone();
    bad[3] = b'x';
    assert_eq!(Handshake::check(&bad, &info_hash), Err(P2PError::HandshakeFailed));
    let mut reserved = hs.content.clone();
    reserved[25] = 0x10;
    reserved[27] = 0x05;
    assert_eq!(Handshake::check(&reserved, &info_hash), Ok(()));
}

#[test]
fn frame_length_prefix() {
    assert_eq!(frame_body_length(&vec![0, 0, 0, 13]), 13);
    assert_eq!(frame_body_length(&vec![0, 1, 0, 0]), 65536);
}

#[test]
fn client_id_has_prefix_and_alphanumeric_suffix() {
    let config = Config::init();
    assert_eq!(config.listening_port, 6882);
    assert_eq!(config.client_id.len(), 20);
    assert_eq!(&config.client_id[..7], b"XX0001x");
    assert!(config.client_id[7..].iter().all(|b| b.is_ascii_alphanumeric()));
}

#[test]
fn tracker_reporter_tallies_and_announces() {
    let mut reporter = TrackerReporter::new();
    assert_eq!(reporter.step(TrackerEvent::Downloaded(100)), (None, false));
    assert_eq!(reporter.step(TrackerEvent::Uploaded(7)), (None, false));
    assert_eq!(reporter.step(TrackerEvent::Downloaded(u64::MAX)), (None, false));
    assert_eq!(reporter.downloaded, u64::MAX);
    assert_eq!(
        reporter.step(TrackerEvent::RegularAnnounce),
        (Some(TrackerRequestEvent::Regular(u64::MAX, 7)), false)
    );
    assert_eq!(
        reporter.step(TrackerEvent::CompletedAnnounce),
        (Some(TrackerRequestEvent::Completed(u64::MAX, 7)), true)
    );
}

#[test]
fn tracker_request_event_fields() {
    assert_eq!(TrackerRequestEvent::Started.name(), "started");
    assert_eq!(TrackerRequestEvent::Regular(1, 2).name(), "");
    assert_eq!(TrackerRequestEvent::Completed(3, 4).name(), "completed");
    assert_eq!(TrackerRequestEvent::Completed(3, 4).downloaded(), 3);
    assert_eq!(TrackerRequestEvent::Regular(1, 2).uploaded(), 2);
    assert_eq!(TrackerRequestEvent::Started.uploaded(), 0);
    let client = TorrentTrackerClient::new(&torrent(Some(10), 16_384, 1), Config::init());
    assert_eq!(client.announce_url, "http://tracker/announce");
    assert_eq!(client.info_hash, vec![7; 20]);
}

#[test]
fn announce_url_is_built_and_encoded() {
    let mut t = torrent(Some(10), 16_384, 1);
    t.info_hash = vec![0x12, 0x34, 0x56, 0x78, 0x9a, 0xbc, 0xde, 0xf0, 0x12, 0x34, 0x56, 0x78, 0x9a, 0xbc, 0xde, 0xf0, 0x41, 0x20, 0x2e, 0x7e];
    let config = Config { listening_port: 6882, client_id: b"XX0001xabcdefghijklm".to_vec() };
    let client = TorrentTrackerClient::new(&t, config);
    let url = String::from_utf8(client.create_url(&TrackerRequestEvent::Started)).unwrap();
    assert_eq!(
        url,
        "http://tracker/announce?info_hash=%124Vx%9A%BC%DE%F0%124Vx%9A%BC%DE%F0A+.%7E&peer_id=XX0001xabcdefghijklm&port=6882&compact=1&event=started&downloaded=0&uploaded=0&numwant=300"
    );
    let url = String::from_utf8(client.create_url(&TrackerRequestEvent::Regular(1234567, 89))).unwrap();
    assert!(url.ends_with("&compact=1&downloaded=1234567&uploaded=89&numwant=300"));
    let url = String::from_utf8(client.create_url(&TrackerRequestEvent::Completed(10, 0))).unwrap();
    assert!(url.contains("&event=completed&downloaded=10&uploaded=0"));
}

#[test]
fn served_block_range_stays_in_its_piece() {
    let layout = TorrentLayout::from_torrent(&torrent(Some(100_000), 40_000, 3)).unwrap();
    assert_eq!(layout.block_range(&rust_torrent_client::layout::Block::new(1, 16_384, 16_384)), Some((56_384, 16_384)));
    assert_eq!(layout.block_range(&rust_torrent_client::layout::Block::new(2, 16_384, 3_616)), Some((96_384, 3_616)));
    assert_eq!(layout.block_range(&rust_torrent_client::layout::Block::new(2, 16_384, 16_384)), None);
    assert_eq!(layout.block_range(&rust_torrent_client::layout::Block::new(3, 0, 10)), None);
    assert_eq!(layout.block_range(&rust_torrent_client::layout::Block::new(0, 0, 0)), None);
}
