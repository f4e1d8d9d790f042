//! A verified core for a BitTorrent client: wire protocol, piece transfer,
//! peer discovery, tracker bookkeeping and the tables that display it all.
//!
//! Every item here is pure state and computation. Sockets, files, clocks and
//! the terminal belong to the program around the library, which feeds events
//! in and carries the resulting requests out.

pub mod assoc;
pub mod bencode;
pub mod bitfield;
pub mod bytes;
pub mod digest;
pub mod flat_table;
pub mod metainfo;
pub mod number;
pub mod peer_map;
pub mod pretty;
pub mod proto;
pub mod rows;
pub mod screen;
pub mod showing;
pub mod str_map;
pub mod style;
pub mod table;
pub mod text;
pub mod torrent;
pub mod tracker;
pub mod types;
