//! What a torrent shows of itself, and what it can be told.

use crate::bitfield::Bitfield;
use crate::peer_map::PeerMap;
use crate::proto::bit_torrent;
use crate::text;
use crate::types;
use crate::types::{Endpoint, EndpointView, PeerId};
use vstd::prelude::*;

verus! {

/// A piece that is being downloaded. The percentage is text to show; whoever
/// shows it fills it in.
#[derive(Debug)]
pub struct PieceProgress {
    pub index: usize,
    pub num_blocks: usize,
    pub num_obtained_blocks: usize,
    pub block_bitfield: Bitfield,
    pub percentage: String,
}

/// What a piece's progress says.
#[verifier::ext_equal]
pub struct PieceProgressView {
    pub index: nat,
    pub num_blocks: nat,
    pub num_obtained_blocks: nat,
    pub bits: Seq<bool>,
    pub percentage: Seq<char>,
}

impl View for PieceProgress {
    type V = PieceProgressView;

    open spec fn view(&self) -> PieceProgressView {
        PieceProgressView {
            index: self.index as nat,
            num_blocks: self.num_blocks as nat,
            num_obtained_blocks: self.num_obtained_blocks as nat,
            bits: self.block_bitfield@,
            percentage: self.percentage@,
        }
    }
}

/// A connection's last second.
#[derive(Debug)]
pub struct ConnectionProgress {
    pub down_speed: usize,
    pub up_speed: usize,
    pub piece_bitfield: Bitfield,
    pub am_choking: bool,
    pub am_interested: bool,
    pub peer_choking: bool,
    pub peer_interested: bool,
    pub pipeline: usize,
    pub piece_cursor: Option<usize>,
    pub timeout_rate: usize,
    pub reject_rate: usize,
}

/// What a connection's progress says.
#[verifier::ext_equal]
pub struct ConnectionProgressView {
    pub down_speed: nat,
    pub up_speed: nat,
    pub has: Seq<bool>,
    pub am_choking: bool,
    pub am_interested: bool,
    pub peer_choking: bool,
    pub peer_interested: bool,
    pub pipeline: nat,
    pub piece_cursor: Option<usize>,
    pub timeout_rate: nat,
    pub reject_rate: nat,
}

impl View for ConnectionProgress {
    type V = ConnectionProgressView;

    open spec fn view(&self) -> ConnectionProgressView {
        ConnectionProgressView {
            down_speed: self.down_speed as nat,
            up_speed: self.up_speed as nat,
            has: self.piece_bitfield@,
            am_choking: self.am_choking,
            am_interested: self.am_interested,
            peer_choking: self.peer_choking,
            peer_interested: self.peer_interested,
            pipeline: self.pipeline as nat,
            piece_cursor: self.piece_cursor,
            timeout_rate: self.timeout_rate as nat,
            reject_rate: self.reject_rate as nat,
        }
    }
}

/// A file of a torrent.
#[derive(Debug)]
pub struct FileInfo {
    pub relative_path: String,
    pub size: usize,
}

/// What a file's entry says.
#[verifier::ext_equal]
pub struct FileInfoView {
    pub relative_path: Seq<char>,
    pub size: usize,
}

impl View for FileInfo {
    type V = FileInfoView;

    open spec fn view(&self) -> FileInfoView {
        FileInfoView { relative_path: self.relative_path@, size: self.size }
    }
}

/// The progress of a transfer. Speeds are in bytes per second. The percentage
/// is text to show; whoever shows it fills it in.
#[derive(Debug)]
pub struct TransferProgress {
    pub files: Vec<FileInfo>,
    pub down_speed: usize,
    pub up_speed: usize,
    pub downloaded: usize,
    pub uploaded: usize,
    pub size: usize,
    pub piece_bitfield: Bitfield,
    pub active_pieces: Vec<PieceProgress>,
    pub percentage: String,
}

/// How long the rest takes at the present speed, in whole seconds.
pub open spec fn seconds_left(size: usize, downloaded: usize, down_speed: usize) -> Option<u64> {
    if down_speed == 0 {
        None
    } else {
        Some(((size - downloaded) / down_speed as int) as u64)
    }
}

impl TransferProgress {
    /// How long the rest takes at the present speed, in whole seconds.
    pub fn eta(&self) -> (r: Option<u64>)
        requires
            self.down_speed == 0 || self.downloaded <= self.size,
        ensures
            r == seconds_left(self.size, self.downloaded, self.down_speed),
            r is None <==> self.down_speed == 0,
            r matches Some(s) ==> s * self.down_speed <= self.size - self.downloaded < (s + 1)
                * self.down_speed,
    {
        if self.down_speed == 0 {
            return None;
        }
        let left = self.size - self.downloaded;
        let r = (left / self.down_speed) as u64;
        proof {
            let d = self.down_speed as int;
            let l = left as int;
            assert(l / d * d <= l < (l / d + 1) * d) by (nonlinear_arith)
                requires
                    d > 0,
                    l >= 0,
            ;
        }
        Some(r)
    }
}

/// What is known of a peer.
#[derive(Debug)]
pub struct PeerProgress {
    pub id: PeerId,
    pub endpoints: Vec<Endpoint>,
    pub errors: Vec<String>,
    pub client: Option<String>,
    pub supports_fast: bool,
    pub supports_pex: bool,
    pub supports_metadata: bool,
    pub supports_dht: bool,
    pub connection: Option<ConnectionProgress>,
}

/// What is known of a peer.
#[verifier::ext_equal]
pub struct PeerProgressView {
    pub id: PeerId,
    pub endpoints: Seq<EndpointView>,
    pub errors: Seq<Seq<char>>,
    pub client: Option<Seq<char>>,
    pub supports_fast: bool,
    pub supports_pex: bool,
    pub supports_metadata: bool,
    pub supports_dht: bool,
    pub connection: Option<ConnectionProgressView>,
}

impl View for PeerProgress {
    type V = PeerProgressView;

    open spec fn view(&self) -> PeerProgressView {
        PeerProgressView {
            id: self.id,
            endpoints: types::endpoint_views(self.endpoints@),
            errors: text::texts(self.errors@),
            client: bit_torrent::text_of(self.client),
            supports_fast: self.supports_fast,
            supports_pex: self.supports_pex,
            supports_metadata: self.supports_metadata,
            supports_dht: self.supports_dht,
            connection: match self.connection {
                Some(c) => Some(c@),
                None => None,
            },
        }
    }
}

/// What is known of several peers.
pub open spec fn peer_views(s: Seq<(PeerId, PeerProgress)>) -> Seq<(PeerId, PeerProgressView)> {
    s.map_values(|e: (PeerId, PeerProgress)| (e.0, e.1@))
}

/// What is known of a tracker. Intervals are in seconds.
#[derive(Debug)]
pub struct TrackerInfo {
    pub tier: usize,
    pub url: String,
    pub succeeded: Option<bool>,
    pub endpoints: Option<Vec<Endpoint>>,
    pub seeders: Option<usize>,
    pub leechers: Option<usize>,
    pub interval: Option<u64>,
    pub min_interval: Option<u64>,
}

/// What is known of a tracker.
#[verifier::ext_equal]
pub struct TrackerInfoView {
    pub tier: nat,
    pub url: Seq<char>,
    pub succeeded: Option<bool>,
    pub endpoints: Option<Seq<EndpointView>>,
    pub seeders: Option<usize>,
    pub leechers: Option<usize>,
    pub interval: Option<u64>,
    pub min_interval: Option<u64>,
}

impl View for TrackerInfo {
    type V = TrackerInfoView;

    open spec fn view(&self) -> TrackerInfoView {
        TrackerInfoView {
            tier: self.tier as nat,
            url: self.url@,
            succeeded: self.succeeded,
            endpoints: match self.endpoints {
                Some(endpoints) => Some(types::endpoint_views(endpoints@)),
                None => None,
            },
            seeders: self.seeders,
            leechers: self.leechers,
            interval: self.interval,
            min_interval: self.min_interval,
        }
    }
}

/// What is known of several trackers.
pub open spec fn tracker_views(s: Seq<TrackerInfo>) -> Seq<TrackerInfoView> {
    s.map_values(|t: TrackerInfo| t@)
}

/// A tracker that has not been heard of.
pub open spec fn unheard(tier: nat, url: Seq<char>) -> TrackerInfoView {
    TrackerInfoView {
        tier,
        url,
        succeeded: None,
        endpoints: None,
        seeders: None,
        leechers: None,
        interval: None,
        min_interval: None,
    }
}

impl TrackerInfo {
    /// A tracker that has not been heard of.
    pub fn new(tier: usize, url: String) -> (r: TrackerInfo)
        ensures
            r@ == unheard(tier as nat, url@),
    {
        TrackerInfo {
            tier,
            url,
            succeeded: None,
            endpoints: None,
            seeders: None,
            leechers: None,
            interval: None,
            min_interval: None,
        }
    }
}

/// What a torrent shows of itself. No two trackers have the same URL.
#[derive(Debug)]
pub struct Progress {
    pub num_discovery_attempts: usize,
    pub num_peers: usize,
    pub num_connected_peers: usize,
    pub display_name: String,
    pub metadata_down_speed: usize,
    pub metadata_up_speed: usize,
    pub metadata_bitfield: Bitfield,
    pub transfer: Option<TransferProgress>,
    pub peers: PeerMap<PeerProgress>,
    pub trackers: Vec<TrackerInfo>,
}

/// What a torrent shows of itself, but for its transfer and its trackers.
#[verifier::ext_equal]
pub struct ProgressView {
    pub num_discovery_attempts: nat,
    pub num_peers: nat,
    pub num_connected_peers: nat,
    pub display_name: Seq<char>,
    pub metadata_down_speed: nat,
    pub metadata_up_speed: nat,
    pub metadata_bits: Seq<bool>,
    pub peers: Seq<(PeerId, PeerProgressView)>,
}

impl View for Progress {
    type V = ProgressView;

    open spec fn view(&self) -> ProgressView {
        ProgressView {
            num_discovery_attempts: self.num_discovery_attempts as nat,
            num_peers: self.num_peers as nat,
            num_connected_peers: self.num_connected_peers as nat,
            display_name: self.display_name@,
            metadata_down_speed: self.metadata_down_speed as nat,
            metadata_up_speed: self.metadata_up_speed as nat,
            metadata_bits: self.metadata_bitfield@,
            peers: peer_views(self.peers@),
        }
    }
}

/// What a torrent can be told to do.
#[derive(Clone, Copy, Debug, PartialEq, Eq, Structural)]
pub enum Command {
    Stop,
    Pause,
    Resume,
}

} // verus!
