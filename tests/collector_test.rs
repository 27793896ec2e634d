use rust_torrent_client::collector::DataCollector;
use rust_torrent_client::events::InternalEvent;
use rust_torrent_client::layout::{Block, DataBlock};
use rust_torrent_client::mocks::MockTorrent;
use rust_torrent_client::picker::RarestPiecePicker;

struct Rig {
    collector: DataCollector,
    picker: RarestPiecePicker,
    file: Vec<u8>,
    events: Vec<InternalEvent>,
}

impl Rig {
    fn new(torrent: &MockTorrent) -> Self {
        Rig {
            collector: DataCollector::new(torrent.layout.clone(), torrent.piece_hashes.clone()),
            picker: RarestPiecePicker::init(torrent.layout.clone()),
            file: vec![0u8; torrent.layout.output_file_length],
            events: Vec::new(),
        }
    }

    fn deliver(&mut self, block: &DataBlock) {
        if let Some(b) = self.collector.accept(block) {
            let start = self.collector.layout.file_offset(b.piece_idx, b.offset);
            self.file[start..start + b.length].copy_from_slice(&block.data);
            let (events, ready) = self.collector.block_written(&mut self.picker, &b);
            self.events.extend(events);
            if let Some(p) = ready {
                let start = self.collector.layout.file_offset(p, 0);
                let len = self.collector.layout.piece_length(p);
                let bytes = self.file[start..start + len].to_vec();
                let more = self.collector.piece_read(&mut self.picker, p, &bytes);
                self.events.extend(more);
            }
        }
    }
}

fn stored(piece: usize, offset: usize) -> InternalEvent {
    InternalEvent::BlockStored(Block::new(piece, offset, 16384))
}

#[test]
fn two_piece_download_in_order() {
    let torrent = MockTorrent::generate(2, 5, 3);
    let mut rig = Rig::new(&torrent);
    for b in 0..5 {
        rig.deliver(&torrent.data_block(0, b));
    }
    for b in 0..3 {
        rig.deliver(&torrent.data_block(1, b));
    }
    let mut expected: Vec<InternalEvent> = (0..5).map(|b| stored(0, b * 16384)).collect();
    expected.push(InternalEvent::PieceStored(0));
    expected.extend((0..3).map(|b| stored(1, b * 16384)));
    expected.push(InternalEvent::PieceStored(1));
    expected.push(InternalEvent::DownloadComplete);
    assert_eq!(rig.events, expected);
    assert_eq!(rig.collector.acquired_pieces, 2);
}

#[test]
fn corrupted_piece_is_fetched_again() {
    let torrent = MockTorrent::generate(2, 5, 3);
    let mut rig = Rig::new(&torrent);
    for b in 0..5 {
        rig.deliver(&torrent.data_block(0, b));
    }
    let before = rig.events.len();
    for b in 0..3 {
        let good = torrent.data_block(1, b);
        let bad = DataBlock::new(1, good.offset, torrent.data_block(0, b).data);
        rig.deliver(&bad);
    }
    let expected: Vec<InternalEvent> = (0..3).map(|b| stored(1, b * 16384)).collect();
    assert_eq!(rig.events[before..].to_vec(), expected);
    assert_eq!(rig.collector.acquired_pieces, 1);
    let before = rig.events.len();
    for b in 0..3 {
        rig.deliver(&torrent.data_block(1, b));
    }
    let mut expected: Vec<InternalEvent> = (0..3).map(|b| stored(1, b * 16384)).collect();
    expected.push(InternalEvent::PieceStored(1));
    expected.push(InternalEvent::DownloadComplete);
    assert_eq!(rig.events[before..].to_vec(), expected);
    let mut content = torrent.pieces_data[0].clone();
    content.extend(torrent.pieces_data[1].iter());
    assert_eq!(rig.file, content);
}

#[test]
fn duplicate_block_is_dropped() {
    let torrent = MockTorrent::generate(2, 2, 2);
    let mut rig = Rig::new(&torrent);
    let block = torrent.data_block(0, 0);
    rig.deliver(&block);
    let file = rig.file.clone();
    let events = rig.events.clone();
    rig.deliver(&block);
    assert_eq!(rig.file, file);
    assert_eq!(rig.events, events);
}

#[test]
fn block_of_wrong_length_is_dropped() {
    let torrent = MockTorrent::generate(1, 2, 2);
    let mut collector = DataCollector::new(torrent.layout.clone(), torrent.piece_hashes.clone());
    assert_eq!(collector.accept(&DataBlock::new(0, 0, vec![0; 10])), None);
    assert_eq!(collector.accept(&DataBlock::new(3, 0, vec![0; 16384])), None);
    assert_eq!(collector.accept(&DataBlock::new(0, 5, vec![0; 16384])), None);
}

#[test]
fn single_piece_single_block_torrent() {
    let torrent = MockTorrent::generate(1, 1, 1);
    let mut rig = Rig::new(&torrent);
    rig.deliver(&torrent.data_block(0, 0));
    assert_eq!(
        rig.events,
        vec![stored(0, 0), InternalEvent::PieceStored(0), InternalEvent::DownloadComplete]
    );
}

#[test]
fn digest_check_without_ready_piece_does_nothing() {
    let torrent = MockTorrent::generate(1, 2, 2);
    let mut collector = DataCollector::new(torrent.layout.clone(), torrent.piece_hashes.clone());
    let mut picker = RarestPiecePicker::init(torrent.layout.clone());
    let events = collector.piece_hash_checked(&mut picker, 0, &torrent.piece_hashes[0]);
    assert!(events.is_empty());
    assert_eq!(collector.acquired_pieces, 0);
}

#[test]
fn piece_digests_differ_by_content() {
    let torrent = MockTorrent::generate(2, 1, 1);
    assert_eq!(torrent.piece_hashes[0].len(), 20);
    assert_ne!(torrent.piece_hashes[0], torrent.piece_hashes[1]);
}

#[test]
fn test_data_collection() {
    let blocks_in_piece_1 = 5;
    let blocks_in_piece_2 = 3;
    let torrent = MockTorrent::generate(2, blocks_in_piece_1, blocks_in_piece_2);
    let mut rig = Rig::new(&torrent);
    for block_idx in 0..blocks_in_piece_1 {
        rig.deliver(&torrent.data_block(0, block_idx));
    }
    assert_eq!(rig.events.len(), blocks_in_piece_1 + 1);
    assert!(rig.events[..blocks_in_piece_1].iter().all(|e| e.is_block_stored()));
    assert!(rig.events[blocks_in_piece_1].is_piece_stored());

    let before = rig.events.len();
    for block_idx in 0..blocks_in_piece_2 {
        let mut data_block = torrent.data_block(0, block_idx);
        data_block.piece_idx = 1;
        rig.deliver(&data_block);
    }
    assert_eq!(rig.events.len() - before, blocks_in_piece_2);
    assert!(rig.events[before..].iter().all(|e| e.is_block_stored()));

    let before = rig.events.len();
    for block_idx in 0..blocks_in_piece_2 {
        rig.deliver(&torrent.data_block(1, block_idx));
    }
    let tail = &rig.events[before..];
    assert_eq!(tail.len(), blocks_in_piece_2 + 2);
    assert!(tail[..blocks_in_piece_2].iter().all(|e| e.is_block_stored()));
    assert!(tail[blocks_in_piece_2].is_piece_stored());
    assert!(tail[blocks_in_piece_2 + 1].is_download_complete());
}

#[test]
fn test_complete_download() {
    let torrent = MockTorrent::generate(5, 10, 8);
    let mut rig = Rig::new(&torrent);
    for piece_idx in 0..torrent.layout.pieces {
        if piece_idx == torrent.layout.pieces - 1 {
            for block_idx in 0..torrent.layout.blocks_in_piece(piece_idx) {
                rig.deliver(&torrent.data_block(piece_idx, block_idx));
            }
        }
        for block_idx in 0..torrent.layout.blocks_in_piece(piece_idx) {
            rig.deliver(&torrent.data_block(piece_idx, block_idx));
        }
    }
    let mut output_events = rig.events.clone();
    assert!(output_events.pop().unwrap().is_download_complete());
    for piece_idx in (0..torrent.layout.pieces).rev() {
        assert_eq!(output_events.pop().unwrap(), InternalEvent::PieceStored(piece_idx));
        for _ in 0..torrent.layout.blocks_in_piece(piece_idx) {
            assert!(output_events.pop().unwrap().is_block_stored());
        }
    }
    assert!(output_events.is_empty());
    let mut content = Vec::new();
    for piece in torrent.pieces_data.iter() {
        content.extend(piece.iter());
    }
    assert_eq!(rig.file, content);
}

#[test]
fn write_report_for_other_block_is_ignored() {
    let torrent = MockTorrent::generate(1, 2, 2);
    let mut collector = DataCollector::new(torrent.layout.clone(), torrent.piece_hashes.clone());
    let mut picker = RarestPiecePicker::init(torrent.layout.clone());
    let (events, ready) = collector.block_written(&mut picker, &Block::new(0, 0, 16384));
    assert!(events.is_empty());
    assert_eq!(ready, None);
    let b = collector.accept(&torrent.data_block(0, 1)).unwrap();
    assert_eq!(collector.awaiting_write, Some(b));
    let (events, _) = collector.block_written(&mut picker, &Block::new(0, 0, 16384));
    assert!(events.is_empty());
    let (events, ready) = collector.block_written(&mut picker, &b);
    assert_eq!(events, vec![InternalEvent::BlockStored(b)]);
    assert_eq!(ready, None);
    assert_eq!(collector.awaiting_write, None);
}
