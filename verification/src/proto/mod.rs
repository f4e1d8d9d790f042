//! The protocols that peers and trackers speak.

pub mod bit_torrent;
pub mod compact;
pub mod metadata;
pub mod pex;
pub mod tracker;
