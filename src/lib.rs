//! A BitTorrent transfer engine for single-file torrents: the wire codec,
//! the shared piece picker, the per-peer session state machine, the data
//! collector, the choke controller and the event bus, each with its contract
//! proved. Sockets, files, timers and tasks are left to the caller.

pub mod layout;
pub mod bitfield;
pub mod message;
pub mod events;
pub mod digest;
pub mod picker;
pub mod session;
pub mod collector;
pub mod choke;
pub mod tracker;
pub mod router;
pub mod bencode;
pub mod torrent;
pub mod config;
pub mod mocks;
