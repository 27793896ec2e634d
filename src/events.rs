use vstd::prelude::*;
use crate::layout::{Block, DataBlock};

verus! {

/// Events that the components publish on the bus.
#[derive(Clone, Debug, PartialEq, Eq)]
pub enum InternalEvent {
    BlockDownloaded(usize, DataBlock),
    BlockStored(Block),
    BlockUploaded(usize),
    ChokePeer(usize),
    DownloadComplete,
    PieceStored(usize),
    P2PTransferTerminated(usize),
    PeerConnectionEstablished(usize),
    UnchokePeer(usize),
    ClientInterestedInPeer(usize, bool),
    PeerInterestedInClient(usize, bool),
}

impl InternalEvent {
    pub fn is_block_downloaded(&self) -> (r: bool)
        ensures
            r == (self is BlockDownloaded),
    {
        match self {
            InternalEvent::BlockDownloaded(..) => true,
            _ => false,
        }
    }

    pub fn is_block_stored(&self) -> (r: bool)
        ensures
            r == (self is BlockStored),
    {
        match self {
            InternalEvent::BlockStored(_) => true,
            _ => false,
        }
    }

    pub fn is_piece_stored(&self) -> (r: bool)
        ensures
            r == (self is PieceStored),
    {
        match self {
            InternalEvent::PieceStored(_) => true,
            _ => false,
        }
    }

    pub fn is_download_complete(&self) -> (r: bool)
        ensures
            r == (self is DownloadComplete),
    {
        match self {
            InternalEvent::DownloadComplete => true,
            _ => false,
        }
    }
}

} // verus!
