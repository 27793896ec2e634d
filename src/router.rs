use vstd::prelude::*;
use crate::choke::ChokeEvent;
use crate::events::InternalEvent;
use crate::layout::{Block, DataBlock};
use crate::session::P2PEvent;
use crate::tracker::TrackerEvent;

verus! {

/// Where the bus sends something.
#[derive(Debug)]
pub enum Delivery {
    Choke(ChokeEvent),
    Collector(DataBlock),
    Tracker(TrackerEvent),
    Peer(usize, P2PEvent),
}

/// A notice for peer sessions that the bus fans out.
pub enum PeerNotice {
    BlockStored(Block),
    PieceStored(usize),
}

/// A registered peer session: its transfer index and whether its connection is up.
#[derive(Clone, Copy, Debug, PartialEq, Eq, Structural)]
pub struct PeerTransfer {
    pub transfer_idx: usize,
    pub is_connected: bool,
}

/// The routing state of the bus.
pub struct Bus {
    pub transfers: Vec<PeerTransfer>,
    pub stored_pieces: usize,
    pub connected_peers: usize,
}

/// Whether a delivery is the given notice to the given peer.
pub open spec fn is_notice(d: Delivery, idx: usize, n: PeerNotice) -> bool {
    match n {
        PeerNotice::BlockStored(b) => d matches Delivery::Peer(i, P2PEvent::BlockStored(b2)) && i == idx && b2 == b,
        PeerNotice::PieceStored(p) => d matches Delivery::Peer(i, P2PEvent::PieceStored(p2)) && i == idx && p2 == p,
    }
}

/// The notice, once per listed peer in order, to the peers that `only_connected`
/// selects.
pub open spec fn fan_out(ts: Seq<PeerTransfer>, only_connected: bool, n: PeerNotice, ds: Seq<Delivery>) -> bool
    decreases ts.len(),
{
    if ts.len() == 0 {
        ds.len() == 0
    } else {
        let t = ts.last();
        if only_connected && !t.is_connected {
            fan_out(ts.drop_last(), only_connected, n, ds)
        } else {
            ds.len() > 0 && is_notice(ds.last(), t.transfer_idx, n) && fan_out(
                ts.drop_last(),
                only_connected,
                n,
                ds.drop_last(),
            )
        }
    }
}

/// The position of the transfer with index `idx`, if registered.
pub open spec fn transfer_position(ts: Seq<PeerTransfer>, idx: usize) -> Option<int> {
    if exists|p: int| 0 <= p < ts.len() && #[trigger] ts[p].transfer_idx == idx {
        Some(choose|p: int| 0 <= p < ts.len() && #[trigger] ts[p].transfer_idx == idx)
    } else {
        None
    }
}

impl Bus {
    pub open spec fn wf(&self) -> bool {
        forall|a: int, b: int|
            0 <= a < b < self.transfers@.len() ==> self.transfers@[a].transfer_idx
                != self.transfers@[b].transfer_idx
    }

    /// A bus for sessions with transfer indices `0..count`, none connected yet.
    pub fn new(count: usize) -> (r: Self)
        ensures
            r.wf(),
            r.transfers@.len() == count,
            forall|p: int|
                0 <= p < count ==> #[trigger] r.transfers@[p] == (PeerTransfer {
                    transfer_idx: p as usize,
                    is_connected: false,
                }),
            r.stored_pieces == 0,
            r.connected_peers == 0,
    {
        let mut transfers: Vec<PeerTransfer> = Vec::new();
        let mut i: usize = 0;
        while i < count
            invariant
                i <= count,
                transfers@.len() == i,
                forall|p: int|
                    0 <= p < i ==> #[trigger] transfers@[p] == (PeerTransfer {
                        transfer_idx: p as usize,
                        is_connected: false,
                    }),
            decreases count - i,
        {
            transfers.push(PeerTransfer { transfer_idx: i, is_connected: false });
            i = i + 1;
        }
        Bus { transfers, stored_pieces: 0, connected_peers: 0 }
    }

    fn find(&self, idx: usize) -> (r: Option<usize>)
        requires
            self.wf(),
        ensures
            match r {
                Some(p) => transfer_position(self.transfers@, idx) == Some(p as int),
                None => transfer_position(self.transfers@, idx) is None,
            },
    {
        let mut p: usize = 0;
        while p < self.transfers.len()
            invariant
                self.wf(),
                p <= self.transfers@.len(),
                forall|k: int| 0 <= k < p ==> self.transfers@[k].transfer_idx != idx,
            decreases self.transfers@.len() - p,
        {
            if self.transfers[p].transfer_idx == idx {
                assert(self.transfers@[p as int].transfer_idx == idx);
                let ghost c = choose|q: int|
                    0 <= q < self.transfers@.len() && #[trigger] self.transfers@[q].transfer_idx == idx;
                assert(c == p as int) by {
                    if c > p as int {
                        assert(self.transfers@[p as int].transfer_idx != self.transfers@[c].transfer_idx);
                    }
                }
                return Some(p);
            }
            p = p + 1;
        }
        None
    }

    fn notify_peers(&self, notice: &PeerNotice, only_connected: bool, out: &mut Vec<Delivery>)
        requires
            old(out)@.len() == 0,
        ensures
            fan_out(self.transfers@, only_connected, *notice, final(out)@),
    {
        let mut i: usize = 0;
        while i < self.transfers.len()
            invariant
                i <= self.transfers@.len(),
                fan_out(self.transfers@.subrange(0, i as int), only_connected, *notice, out@),
            decreases self.transfers@.len() - i,
        {
            let t = self.transfers[i];
            let ghost before = out@;
            if !only_connected || t.is_connected {
                let ev = match notice {
                    PeerNotice::BlockStored(b) => P2PEvent::BlockStored(*b),
                    PeerNotice::PieceStored(p) => P2PEvent::PieceStored(*p),
                };
                out.push(Delivery::Peer(t.transfer_idx, ev));
                proof {
                    assert(out@.drop_last() =~= before);
                }
            }
            proof {
                let ts = self.transfers@.subrange(0, i + 1);
                assert(ts.drop_last() =~= self.transfers@.subrange(0, i as int));
                assert(ts.last() == t);
            }
            i = i + 1;
        }
        assert(self.transfers@.subrange(0, self.transfers@.len() as int) =~= self.transfers@);
    }

    /// Routes one event of the bus; the flag says whether the download is
    /// complete and the bus stops.
    pub fn route(&mut self, event: InternalEvent) -> (r: (Vec<Delivery>, bool))
        requires
            old(self).wf(),
        ensures
            final(self).wf(),
            route_spec(*old(self), *final(self), event, r.0@, r.1),
    {
        let mut out: Vec<Delivery> = Vec::new();
        let ghost b0 = *self;
        match event {
            InternalEvent::BlockDownloaded(transfer_idx, block) => {
                out.push(Delivery::Choke(ChokeEvent::BlockDownloadedFromPeer(transfer_idx)));
                out.push(Delivery::Tracker(TrackerEvent::Downloaded(block.data.len() as u64)));
                out.push(Delivery::Collector(block));
            },
            InternalEvent::BlockStored(block) => {
                self.notify_peers(&PeerNotice::BlockStored(block), true, &mut out);
            },
            InternalEvent::DownloadComplete => {
                out.push(Delivery::Tracker(TrackerEvent::CompletedAnnounce));
                return (out, true);
            },
            InternalEvent::PieceStored(piece_idx) => {
                self.notify_peers(&PeerNotice::PieceStored(piece_idx), false, &mut out);
                if self.stored_pieces < usize::MAX {
                    self.stored_pieces = self.stored_pieces + 1;
                }
            },
            InternalEvent::P2PTransferTerminated(transfer_idx) => {
                if let Some(p) = self.find(transfer_idx) {
                    let t = self.transfers.remove(p);
                    if t.is_connected && self.connected_peers > 0 {
                        self.connected_peers = self.connected_peers - 1;
                    }
                    proof {
                        assert forall|a: int, b: int| 0 <= a < b < self.transfers@.len() implies self.transfers@[a].transfer_idx
                            != self.transfers@[b].transfer_idx by {
                            let a2 = if a < p { a } else { a + 1 };
                            let b2 = if b < p { b } else { b + 1 };
                            assert(self.transfers@[a] == b0.transfers@[a2]);
                            assert(self.transfers@[b] == b0.transfers@[b2]);
                        }
                    }
                }
                out.push(Delivery::Choke(ChokeEvent::UnregisterPeer(transfer_idx)));
            },
            InternalEvent::ChokePeer(transfer_idx) => {
                if self.find(transfer_idx).is_some() {
                    out.push(Delivery::Peer(transfer_idx, P2PEvent::ChokePeer));
                }
            },
            InternalEvent::UnchokePeer(transfer_idx) => {
                if self.find(transfer_idx).is_some() {
                    out.push(Delivery::Peer(transfer_idx, P2PEvent::UnchokePeer));
                }
            },
            InternalEvent::ClientInterestedInPeer(idx, interested) => {
                out.push(Delivery::Choke(ChokeEvent::ClientInterestedInPeer(idx, interested)));
            },
            InternalEvent::PeerInterestedInClient(idx, interested) => {
                out.push(Delivery::Choke(ChokeEvent::PeerInterestedInClient(idx, interested)));
            },
            InternalEvent::PeerConnectionEstablished(idx) => {
                if let Some(p) = self.find(idx) {
                    let t = self.transfers[p];
                    if !t.is_connected {
                        self.transfers.set(p, PeerTransfer { transfer_idx: t.transfer_idx, is_connected: true });
                        if self.connected_peers < usize::MAX {
                            self.connected_peers = self.connected_peers + 1;
                        }
                        proof {
                            assert forall|a: int, b: int| 0 <= a < b < self.transfers@.len() implies self.transfers@[a].transfer_idx
                                != self.transfers@[b].transfer_idx by {
                                assert(self.transfers@[a].transfer_idx == b0.transfers@[a].transfer_idx);
                                assert(self.transfers@[b].transfer_idx == b0.transfers@[b].transfer_idx);
                            }
                        }
                    }
                }
            },
            InternalEvent::BlockUploaded(size) => {
                out.push(Delivery::Tracker(TrackerEvent::Uploaded(size as u64)));
            },
        }
        (out, false)
    }
}

/// What routing `event` does to the bus and where it sends things.
pub open spec fn route_spec(b0: Bus, b1: Bus, event: InternalEvent, out: Seq<Delivery>, stop: bool) -> bool {
    let ts = b0.transfers@;
    match event {
        InternalEvent::BlockDownloaded(idx, block) => !stop && b1 == b0 && out.len() == 3
            && out[0] == Delivery::Choke(ChokeEvent::BlockDownloadedFromPeer(idx))
            && out[1] == Delivery::Tracker(TrackerEvent::Downloaded(block.data@.len() as u64))
            && out[2] == Delivery::Collector(block),
        InternalEvent::BlockStored(block) => !stop && b1 == b0 && fan_out(
            ts,
            true,
            PeerNotice::BlockStored(block),
            out,
        ),
        InternalEvent::DownloadComplete => stop && b1 == b0 && out == seq![
            Delivery::Tracker(TrackerEvent::CompletedAnnounce),
        ],
        InternalEvent::PieceStored(p) => !stop && fan_out(ts, false, PeerNotice::PieceStored(p), out)
            && b1 == (Bus {
            stored_pieces: if b0.stored_pieces < usize::MAX {
                (b0.stored_pieces + 1) as usize
            } else {
                b0.stored_pieces
            },
            ..b0
        }),
        InternalEvent::P2PTransferTerminated(idx) => !stop && out == seq![
            Delivery::Choke(ChokeEvent::UnregisterPeer(idx)),
        ] && match transfer_position(ts, idx) {
            Some(p) => b1.transfers@ == ts.remove(p) && b1.stored_pieces == b0.stored_pieces
                && b1.connected_peers == if ts[p].is_connected && b0.connected_peers > 0 {
                (b0.connected_peers - 1) as usize
            } else {
                b0.connected_peers
            },
            None => b1 == b0,
        },
        InternalEvent::ChokePeer(idx) => !stop && b1 == b0 && out == if transfer_position(ts, idx) is Some {
            seq![Delivery::Peer(idx, P2PEvent::ChokePeer)]
        } else {
            Seq::empty()
        },
        InternalEvent::UnchokePeer(idx) => !stop && b1 == b0 && out == if transfer_position(ts, idx) is Some {
            seq![Delivery::Peer(idx, P2PEvent::UnchokePeer)]
        } else {
            Seq::empty()
        },
        InternalEvent::ClientInterestedInPeer(idx, i) => !stop && b1 == b0 && out == seq![
            Delivery::Choke(ChokeEvent::ClientInterestedInPeer(idx, i)),
        ],
        InternalEvent::PeerInterestedInClient(idx, i) => !stop && b1 == b0 && out == seq![
            Delivery::Choke(ChokeEvent::PeerInterestedInClient(idx, i)),
        ],
        InternalEvent::PeerConnectionEstablished(idx) => !stop && b1.stored_pieces == b0.stored_pieces
            && match transfer_position(ts, idx) {
            Some(p) => if ts[p].is_connected {
                b1 == b0
            } else {
                &&& b1.transfers@ == ts.update(p, PeerTransfer { transfer_idx: idx, is_connected: true })
                &&& b1.connected_peers == if b0.connected_peers < usize::MAX {
                    (b0.connected_peers + 1) as usize
                } else {
                    b0.connected_peers
                }
            },
            None => b1 == b0,
        } && out.len() == 0,
        InternalEvent::BlockUploaded(size) => !stop && b1 == b0 && out == seq![
            Delivery::Tracker(TrackerEvent::Uploaded(size as u64)),
        ],
    }
}

} // verus!
