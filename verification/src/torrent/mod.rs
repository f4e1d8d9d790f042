//! A torrent: its peers, the search for more of them, its metadata and its
//! transfer.

pub mod conduct;
pub mod control;
pub mod laws;
pub mod magnet;
pub mod model;
pub mod peer;
pub mod piece;
pub mod transfer;

use crate::assoc;
use crate::bitfield;
use crate::digest;
use crate::metainfo;
use crate::metainfo::{InfoModel, Metadata, Metainfo};
use crate::number;
use crate::peer_map::PeerMap;
use crate::proto::bit_torrent;
use crate::proto::bit_torrent::{BitTorrent, Message, MessageModel};
use crate::proto::metadata::{MetadataMessage, MetadataModel};
use crate::proto::pex;
use crate::str_map::StrMap;
use crate::text;
use crate::tracker;
use crate::tracker::{Trackers, TrackersModel};
use crate::types;
use crate::types::{PeerId, PeerInfo, PeerInfoView, Sha1Hash};
use vstd::prelude::*;

use self::control::{
    Command, PeerProgress, PeerProgressView, Progress, ProgressView, TrackerInfo,
    TransferProgress,
};
use self::model::{
    ActionModel, AttemptModel, BacklogModel, DiscoveryMechanism, ErrorModel, EventModel,
    TorrentModel, MAX_DISCOVERY_ATTEMPTS, METADATA_BLOCK_SIZE,
};
use self::peer::{Peer, PeerModel, StateModel};
use self::magnet::Magnet;
use self::piece::{Piece, PieceModel};
use self::transfer::connection;
use self::transfer::connection::{ConnectionModel, Report};
use self::transfer::model::{PendingModel, TransferError, TransferModel};
use self::transfer::{Pending, Transfer};

verus! {

/// A peer that is being tried.
#[derive(Debug)]
pub struct DiscoveryAttempt {
    pub info: PeerInfo,
    pub num_attempts: usize,
    pub mechanism: DiscoveryMechanism,
}

impl View for DiscoveryAttempt {
    type V = AttemptModel;

    open spec fn view(&self) -> AttemptModel {
        AttemptModel {
            info: self.info@,
            num_attempts: self.num_attempts as nat,
            mechanism: self.mechanism,
        }
    }
}

impl DiscoveryAttempt {
    /// The first attempt at a peer.
    pub fn new(info: PeerInfo, mechanism: DiscoveryMechanism) -> (r: DiscoveryAttempt)
        ensures
            r@ == (AttemptModel { info: info@, num_attempts: 1, mechanism }),
    {
        DiscoveryAttempt { info, num_attempts: 1, mechanism }
    }
}

/// What is left to do once a transfer has started.
#[derive(Debug)]
pub enum Backlog {
    Connect { peer: PeerId, supports_fast: bool },
    Message { peer: PeerId, message: Message },
}

impl View for Backlog {
    type V = BacklogModel;

    open spec fn view(&self) -> BacklogModel {
        match *self {
            Backlog::Connect { peer, supports_fast } => BacklogModel::Connect {
                peer,
                supports_fast,
            },
            Backlog::Message { peer, message } => BacklogModel::Message { peer, message: message@ },
        }
    }
}

/// Something that happened. A reconnection comes with the identity of its peer.
#[derive(Debug)]
pub enum Event {
    Message(PeerId, Message),
    Connection(BitTorrent, PeerInfo, Option<PeerId>),
    ConnectionFailure(PeerInfo, String, Option<PeerId>),
    Disconnection(PeerId, String),
    Tracker(Vec<PeerInfo>),
}

impl View for Event {
    type V = EventModel;

    open spec fn view(&self) -> EventModel {
        match *self {
            Event::Message(peer, message) => EventModel::Message(peer, message@),
            Event::Connection(bit_torrent, info, known_id) => EventModel::Connection {
                id: bit_torrent.id,
                supports_fast: bit_torrent.supports_fast,
                supports_dht: bit_torrent.supports_dht,
                info: info@,
                known_id,
            },
            Event::ConnectionFailure(info, _, known_id) => EventModel::ConnectionFailure(
                info@,
                known_id,
            ),
            Event::Disconnection(peer, error) => EventModel::Disconnection(peer, error@),
            Event::Tracker(infos) => EventModel::Tracker(pex::info_views(infos@)),
        }
    }
}

/// What has to be done before the torrent can go on. After loading comes
/// [`Torrent::start_transfer`].
#[derive(Debug)]
pub enum Action {
    Nothing,
    Disk(Pending),
    Load(Metadata),
}

/// The action is the one that a model speaks of.
pub open spec fn is_action(action: Action, m: ActionModel) -> bool {
    match (action, m) {
        (Action::Nothing, ActionModel::Nothing) => true,
        (Action::Disk(pending), ActionModel::Disk(p)) => pending@ == p,
        (Action::Load(metadata), ActionModel::Load(info)) => metainfo::says(metadata, info),
        _ => false,
    }
}

/// Why a torrent cannot go on.
#[derive(Debug)]
pub enum TorrentError {
    Transfer(TransferError),
    Metadata(String),
}

impl View for TorrentError {
    type V = ErrorModel;

    open spec fn view(&self) -> ErrorModel {
        match self {
            TorrentError::Transfer(e) => ErrorModel::Transfer(*e),
            TorrentError::Metadata(e) => ErrorModel::Metadata(e@),
        }
    }
}

/// A torrent.
#[derive(Debug)]
pub struct Torrent {
    pub metainfo: Metainfo,
    pub client_id: PeerId,
    pub peers: PeerMap<Peer>,
    pub discovery_attempts: Vec<DiscoveryAttempt>,
    pub transfer: Option<Transfer>,
    pub metadata: Piece,
    /// The connections that are to be made; a reconnection has a known identity.
    pub connects: Vec<(PeerInfo, Option<PeerId>)>,
    pub backlog: Vec<Backlog>,
    pub progress: Progress,
}

/// The contents of a list of peers.
pub open spec fn peer_views(s: Seq<(PeerId, Peer)>) -> Seq<(PeerId, PeerModel)> {
    s.map_values(|e: (PeerId, Peer)| (e.0, e.1@))
}

/// The contents of a list of attempts.
pub open spec fn attempt_views(s: Seq<DiscoveryAttempt>) -> Seq<AttemptModel> {
    s.map_values(|a: DiscoveryAttempt| a@)
}

/// The contents of a list of connections to be made.
pub open spec fn connect_views(s: Seq<(PeerInfo, Option<PeerId>)>) -> Seq<
    (PeerInfoView, Option<PeerId>),
> {
    s.map_values(|c: (PeerInfo, Option<PeerId>)| (c.0@, c.1))
}

/// The contents of a list of what is left to do.
pub open spec fn backlog_views(s: Seq<Backlog>) -> Seq<BacklogModel> {
    s.map_values(|b: Backlog| b@)
}

impl View for Torrent {
    type V = TorrentModel;

    open spec fn view(&self) -> TorrentModel {
        TorrentModel {
            client_id: self.client_id,
            info_hash: self.metainfo.info_hash,
            peers: peer_views(self.peers@),
            attempts: attempt_views(self.discovery_attempts@),
            transfer: match self.transfer {
                Some(t) => Some(t@),
                None => None,
            },
            metadata: self.metadata@,
            connects: connect_views(self.connects@),
            backlog: backlog_views(self.backlog@),
            shown: self.progress@,
        }
    }
}

/// What the model does not show is as it was.
pub open spec fn same_rest(a: Torrent, b: Torrent) -> bool {
    &&& a.metainfo == b.metainfo
    &&& a.progress.transfer == b.progress.transfer
    &&& a.progress.trackers == b.progress.trackers
}

/// A peer changed among the others.
proof fn lemma_peer_changed(
    before: Seq<(PeerId, Peer)>,
    after: Seq<(PeerId, Peer)>,
    i: int,
    id: PeerId,
    f: spec_fn(PeerModel) -> PeerModel,
)
    requires
        assoc::distinct_keys(peer_views(before)),
        assoc::key_at(before, i, id),
        after == before.update(i, (id, after[i].1)),
        after[i].1@ == f(before[i].1@),
    ensures
        peer_views(after) == assoc::changed(peer_views(before), id, f),
        assoc::distinct_keys(peer_views(after)),
{
    assert(assoc::key_at(peer_views(before), i, id));
    assoc::lemma_index_unique(peer_views(before), i, id);
    assert(peer_views(after) =~= assoc::changed(peer_views(before), id, f));
    assoc::lemma_changed_keys(peer_views(before), id, f);
}

/// Peers and their contents have the same keys.
proof fn lemma_peer_keys(s: Seq<(PeerId, Peer)>)
    ensures
        assoc::distinct_keys(s) == assoc::distinct_keys(peer_views(s)),
        forall|id: PeerId| #[trigger] assoc::has_key(s, id) == assoc::has_key(peer_views(s), id),
        assoc::distinct_keys(s) ==> forall|id: PeerId|
            assoc::has_key(s, id) ==> #[trigger] assoc::index_of(s, id) == assoc::index_of(
                peer_views(s),
                id,
            ),
{
    assoc::lemma_same_keys(s, peer_views(s));
}

/// What is shown of peers has the same keys as its contents.
proof fn lemma_shown_keys(s: Seq<(PeerId, PeerProgress)>)
    ensures
        assoc::distinct_keys(s) == assoc::distinct_keys(control::peer_views(s)),
        forall|id: PeerId| #[trigger]
            assoc::has_key(s, id) == assoc::has_key(control::peer_views(s), id),
        assoc::distinct_keys(s) ==> forall|id: PeerId|
            assoc::has_key(s, id) ==> #[trigger] assoc::index_of(s, id) == assoc::index_of(
                control::peer_views(s),
                id,
            ),
{
    assoc::lemma_same_keys(s, control::peer_views(s));
}

impl Torrent {
    /// A torrent's parts agree with each other.
    pub open spec fn wf(self) -> bool {
        &&& self@.wf()
        &&& self.transfer matches Some(t) ==> t.wf()
        &&& self.progress.metadata_bitfield.wf()
    }

    /// Where the entry for a peer stands.
    fn find(&self, id: &PeerId) -> (r: Option<usize>)
        requires
            assoc::distinct_keys(self@.peers),
        ensures
            match r {
                Some(i) => assoc::key_at(self.peers@, i as int, *id) && assoc::has_key(
                    self@.peers,
                    *id,
                ) && assoc::index_of(self@.peers, *id) == i,
                None => !assoc::has_key(self@.peers, *id),
            },
    {
        proof {
            lemma_peer_keys(self.peers@);
        }
        self.peers.position(id)
    }

    /// Whether some peer is the same as `info`.
    fn knows(&self, info: &PeerInfo) -> (r: bool)
        ensures
            r == model::knows(self@.peers, info@),
    {
        let mut i: usize = 0;
        while i < self.peers.entries.len()
            invariant
                i <= self.peers@.len(),
                forall|j: int|
                    0 <= j < i ==> !types::same_peer((#[trigger] self@.peers[j]).1.info, info@),
            decreases self.peers@.len() - i,
        {
            assert(self@.peers[i as int].1 == self.peers@[i as int].1@);
            if self.peers.entries[i].1.info.is_same_peer(info) {
                return true;
            }
            i += 1;
        }
        false
    }

    /// Drops the attempts at exactly `info`.
    fn drop_attempts(&mut self, info: &PeerInfo)
        ensures
            final(self)@ == (TorrentModel {
                attempts: model::without(old(self)@.attempts, info@),
                ..old(self)@
            }),
            *final(self) == (Torrent {
                discovery_attempts: final(self).discovery_attempts,
                ..*old(self)
            }),
    {
        let ghost before = self@.attempts;
        let mut kept: Vec<DiscoveryAttempt> = Vec::new();
        let mut i: usize = 0;
        proof {
            assert(before.take(0) =~= Seq::empty());
            assert(attempt_views(kept@) =~= Seq::empty());
        }
        while i < self.discovery_attempts.len()
            invariant
                i <= self.discovery_attempts@.len(),
                before == attempt_views(self.discovery_attempts@),
                attempt_views(kept@) == model::without(before.take(i as int), info@),
            decreases self.discovery_attempts@.len() - i,
        {
            let a = &self.discovery_attempts[i];
            let ghost so_far = attempt_views(kept@);
            proof {
                assert(before.take(i as int + 1).drop_last() =~= before.take(i as int));
                assert(before.take(i as int + 1).last() == a@);
            }
            if !a.info.same_info(info) {
                let copy = DiscoveryAttempt {
                    info: a.info.copy(),
                    num_attempts: a.num_attempts,
                    mechanism: a.mechanism,
                };
                kept.push(copy);
                assert(attempt_views(kept@) =~= so_far.push(a@));
            }
            i += 1;
        }
        assert(before.take(i as int) =~= before);
        self.discovery_attempts = kept;
    }

    /// Asks for a connection to a peer.
    fn try_connect(&mut self, info: &PeerInfo, known_id: Option<PeerId>)
        ensures
            final(self)@ == old(self)@.try_connect(info@, known_id),
            *final(self) == (Torrent { connects: final(self).connects, ..*old(self) }),
    {
        let ghost before = self@.connects;
        self.connects.push((info.copy(), known_id));
        assert(self@.connects =~= before.push((info@, known_id)));
    }

    /// Takes note of a peer.
    pub fn discover(&mut self, info: &PeerInfo, mechanism: DiscoveryMechanism)
        ensures
            final(self)@ == old(self)@.discover(info@, mechanism),
            *final(self) == (Torrent {
                connects: final(self).connects,
                discovery_attempts: final(self).discovery_attempts,
                ..*old(self)
            }),
    {
        if self.knows(info) {
            return;
        }
        let ghost attempts = self@.attempts;
        let mut k: usize = 0;
        while k < self.discovery_attempts.len() && !self.discovery_attempts[k].info.is_same_peer(
            info,
        )
            invariant
                k <= self.discovery_attempts@.len(),
                attempts == attempt_views(self.discovery_attempts@),
                model::first_attempt(attempts, info@, 0) == model::first_attempt(
                    attempts,
                    info@,
                    k as int,
                ),
            decreases self.discovery_attempts@.len() - k,
        {
            assert(attempts[k as int] == self.discovery_attempts@[k as int]@);
            k += 1;
        }
        if k < self.discovery_attempts.len() {
            assert(attempts[k as int] == self.discovery_attempts@[k as int]@);
            if self.discovery_attempts[k].num_attempts < MAX_DISCOVERY_ATTEMPTS {
                self.discovery_attempts[k].num_attempts += 1;
                assert(self@.attempts =~= attempts.update(
                    k as int,
                    AttemptModel {
                        num_attempts: attempts[k as int].num_attempts + 1,
                        ..attempts[k as int]
                    },
                ));
                self.try_connect(info, None);
            } else {
                self.drop_attempts(info);
            }
        } else {
            let attempt = DiscoveryAttempt::new(info.copy(), mechanism);
            let ghost view = attempt@;
            self.discovery_attempts.push(attempt);
            assert(self@.attempts =~= attempts.push(view));
            self.try_connect(info, None);
        }
    }

    /// Takes note of several peers.
    pub fn discover_all(&mut self, infos: &Vec<PeerInfo>, mechanism: DiscoveryMechanism)
        ensures
            final(self)@ == old(self)@.discover_all(pex::info_views(infos@), mechanism),
            *final(self) == (Torrent {
                connects: final(self).connects,
                discovery_attempts: final(self).discovery_attempts,
                ..*old(self)
            }),
    {
        let ghost all = pex::info_views(infos@);
        let mut i: usize = 0;
        assert(all.take(0) =~= Seq::empty());
        while i < infos.len()
            invariant
                i <= infos@.len(),
                all == pex::info_views(infos@),
                self@ == old(self)@.discover_all(all.take(i as int), mechanism),
                *self == (Torrent {
                    connects: self.connects,
                    discovery_attempts: self.discovery_attempts,
                    ..*old(self)
                }),
            decreases infos@.len() - i,
        {
            proof {
                assert(all.take(i as int + 1).drop_last() =~= all.take(i as int));
                assert(all.take(i as int + 1).last() == infos@[i as int]@);
            }
            self.discover(&infos[i], mechanism);
            i += 1;
        }
        assert(all.take(i as int) =~= all);
    }

    /// Asks a peer for metadata until no more may be out or there is nothing to
    /// ask of it.
    fn dispatch_one(&mut self, i: usize, now: u64)
        requires
            old(self).wf(),
            i < old(self).peers@.len(),
        ensures
            final(self).wf(),
            final(self)@ == old(self)@.dispatch_one(i as int, now),
            *final(self) == (Torrent {
                peers: final(self).peers,
                metadata: final(self).metadata,
                ..*old(self)
            }),
            final(self).peers@.len() == old(self).peers@.len(),
    {
        let ghost start = self@;
        let mut done = false;
        while !done
            invariant
                self.wf(),
                i < self.peers@.len(),
                self.peers@.len() == old(self).peers@.len(),
                *self == (Torrent { peers: self.peers, metadata: self.metadata, ..*old(self) }),
                done ==> self@ == start.dispatch_one(i as int, now),
                !done ==> start.dispatch_one(i as int, now) == self@.dispatch_one(i as int, now),
                !done ==> self@.peers[i as int].1.sent_metadata_requests
                    <= peer::MAX_METADATA_REQUESTS || !self@.peers[i as int].1.can_request_metadata(),
            decreases
                    (if done {
                        0
                    } else {
                        1int
                    }),
                    peer::MAX_METADATA_REQUESTS - self@.peers[i as int].1.sent_metadata_requests,
        {
            let ghost m = self@;
            let id = self.peers.entries[i].0;
            assert(m.peers[i as int] == (id, self.peers@[i as int].1@));
            if !self.peers.entries[i].1.can_request_metadata() {
                done = true;
            } else {
                match self.metadata.find_available_block(&id) {
                    None => {
                        done = true;
                    },
                    Some(block) => {
                        let ghost before = self.peers@;
                        self.metadata.download(block, id, now);
                        self.peers.entries[i].1.request_metadata(block);
                        proof {
                            assert(self.peers@ =~= before.update(
                                i as int,
                                (id, self.peers@[i as int].1),
                            ));
                            assert(self@.peers =~= m.request_metadata(i as int, block, now).peers);
                            assert(self@ =~= m.request_metadata(i as int, block, now));
                            assoc::lemma_same_keys(m.peers, self@.peers);
                        }
                    },
                }
            }
        }
    }

    /// Asks all peers for metadata.
    pub fn dispatch_metadata_request(&mut self, now: u64)
        requires
            old(self).wf(),
        ensures
            final(self).wf(),
            final(self)@ == old(self)@.dispatch(now),
            *final(self) == (Torrent {
                peers: final(self).peers,
                metadata: final(self).metadata,
                ..*old(self)
            }),
    {
        let n = self.peers.entries.len();
        let mut i: usize = 0;
        while i < n
            invariant
                i <= n,
                n == self.peers@.len(),
                n == old(self)@.peers.len(),
                self.wf(),
                self@ == old(self)@.dispatch_upto(i as nat, now),
                *self == (Torrent { peers: self.peers, metadata: self.metadata, ..*old(self) }),
            decreases n - i,
        {
            self.dispatch_one(i, now);
            i += 1;
        }
    }
}

/// A change to a peer that is not there changes nothing.
proof fn lemma_no_peer(m: TorrentModel, id: PeerId, f: spec_fn(PeerModel) -> PeerModel)
    requires
        !assoc::has_key(m.peers, id),
    ensures
        m.with_peer(id, f) == m,
{
    assert(m.with_peer(id, f) =~= m);
}

impl Torrent {
    /// Shows how much of the metadata is there.
    fn show_metadata(&mut self)
        requires
            old(self).wf(),
        ensures
            final(self).wf(),
            final(self)@ == old(self)@.show_metadata(),
            same_rest(*final(self), *old(self)),
    {
        self.progress.metadata_bitfield = self.metadata.to_bitfield();
        assert(self@ =~= old(self)@.show_metadata());
    }

    /// Answers a request for metadata.
    fn send_metadata(&mut self, index: usize, peer: &PeerId)
        requires
            old(self).wf(),
        ensures
            final(self).wf(),
            old(self)@.handle_metadata(MetadataModel::Request { index }, *peer, 0) == Ok::<
                _,
                ErrorModel,
            >((final(self)@, ActionModel::Nothing)),
            same_rest(*final(self), *old(self)),
    {
        let ghost m = self@;
        let num_blocks = self.metadata.num_blocks();
        if num_blocks == 0 {
            return;
        }
        match self.find(peer) {
            Some(i) => {
                let ghost before = self.peers@;
                match self.metadata.get(index) {
                    Some(bytes) => {
                        let ghost data = bytes@;
                        let ghost f = |p: PeerModel| p.send_metadata(index, num_blocks, data);
                        self.peers.entries[i].1.send_metadata(index, num_blocks, bytes);
                        proof {
                            assert(self.peers@ =~= before.update(
                                i as int,
                                (*peer, self.peers@[i as int].1),
                            ));
                            lemma_peer_changed(before, self.peers@, i as int, *peer, f);
                            assert(self@ =~= m.with_peer(*peer, f));
                        }
                    },
                    None => {
                        let ghost f = |p: PeerModel| p.send_metadata_reject(index);
                        self.peers.entries[i].1.send_metadata_reject(index);
                        proof {
                            assert(self.peers@ =~= before.update(
                                i as int,
                                (*peer, self.peers@[i as int].1),
                            ));
                            lemma_peer_changed(before, self.peers@, i as int, *peer, f);
                            assert(self@ =~= m.with_peer(*peer, f));
                        }
                    },
                }
            },
            None => {
                proof {
                    if let Some(bytes) = m.metadata.block_data(index as int) {
                        lemma_no_peer(
                            m,
                            *peer,
                            |p: PeerModel| p.send_metadata(index, num_blocks, bytes),
                        );
                    }
                    lemma_no_peer(m, *peer, |p: PeerModel| p.send_metadata_reject(index));
                }
            },
        }
    }

    /// Counts a request to a peer as no longer being out.
    fn sub_sent(&mut self, peer: &PeerId)
        requires
            old(self).wf(),
        ensures
            final(self).wf(),
            final(self)@ == old(self)@.with_peer(*peer, |p: PeerModel| p.sub_sent(1)),
            *final(self) == (Torrent { peers: final(self).peers, ..*old(self) }),
    {
        let ghost m = self@;
        let ghost f = |p: PeerModel| p.sub_sent(1);
        match self.find(peer) {
            Some(i) => {
                let ghost before = self.peers@;
                self.peers.entries[i].1.sub_sent_metadata_requests(1);
                proof {
                    assert(self.peers@ =~= before.update(
                        i as int,
                        (*peer, self.peers@[i as int].1),
                    ));
                    lemma_peer_changed(before, self.peers@, i as int, *peer, f);
                    assert(self@ =~= m.with_peer(*peer, f));
                }
            },
            None => {
                proof {
                    lemma_no_peer(m, *peer, f);
                }
            },
        }
    }

    /// Counts a block of metadata that came from a peer.
    fn count_metadata(&mut self, peer: &PeerId, requested: bool)
        requires
            old(self).wf(),
        ensures
            final(self).wf(),
            final(self)@ == old(self)@.with_peer(
                *peer,
                |p: PeerModel| p.receive_metadata(requested),
            ),
            *final(self) == (Torrent { peers: final(self).peers, ..*old(self) }),
    {
        let ghost m = self@;
        let ghost f = |p: PeerModel| p.receive_metadata(requested);
        match self.find(peer) {
            Some(i) => {
                let ghost before = self.peers@;
                self.peers.entries[i].1.receive_metadata(requested);
                proof {
                    assert(self.peers@ =~= before.update(
                        i as int,
                        (*peer, self.peers@[i as int].1),
                    ));
                    lemma_peer_changed(before, self.peers@, i as int, *peer, f);
                    assert(self@ =~= m.with_peer(*peer, f));
                }
            },
            None => {
                proof {
                    lemma_no_peer(m, *peer, f);
                }
            },
        }
    }

    /// Takes in a block of metadata.
    fn receive_metadata(&mut self, index: usize, piece: Vec<u8>, peer: &PeerId, now: u64) -> (r:
        Result<Action, TorrentError>)
        requires
            old(self).wf(),
        ensures
            final(self).wf(),
            match r {
                Ok(action) => old(self)@.receive_metadata(index, piece@, *peer, now) matches Ok(
                    (m, a),
                ) && final(self)@ == m && is_action(action, a),
                Err(e) => old(self)@.receive_metadata(index, piece@, *peer, now) == Err::<
                    (TorrentModel, ActionModel),
                    _,
                >(e@) && final(self)@ == old(self)@.place_metadata(index, piece@, *peer),
            },
            same_rest(*final(self), *old(self)),
    {
        let ghost m = self@;
        let who = self.metadata.who_downloading(index);
        let requested = match who {
            Some(who) => who == *peer,
            None => false,
        };
        assert(requested == (who == Some(*peer)));
        self.count_metadata(peer, requested);
        let ghost counted = m.with_peer(
            *peer,
            |p: PeerModel| p.receive_metadata(who == Some(*peer)),
        );
        proof {
            assert((|p: PeerModel| p.receive_metadata(requested)) =~= (|p: PeerModel|
                p.receive_metadata(who == Some(*peer))));
            assert(self@ == counted);
        }
        if let Some(who) = who {
            if !(who == *peer) {
                self.sub_sent(&who);
            }
        }
        let ghost answered = self@;
        let placed = self.metadata.place(index, piece, false);
        assert(self@ =~= TorrentModel {
            metadata: m.metadata.place(index as int, piece@, false).0,
            ..answered
        });
        match placed {
            Some(bytes) => match Metadata::from_bytes(bytes.as_slice()) {
                Ok(metadata) => {
                    self.show_metadata();
                    Ok(Action::Load(metadata))
                },
                Err(e) => {
                    let mut text = "Error parsing metadata: ".to_owned();
                    text.append(e.as_str());
                    Err(TorrentError::Metadata(text))
                },
            },
            None => {
                self.dispatch_metadata_request(now);
                self.show_metadata();
                Ok(Action::Nothing)
            },
        }
    }

    /// Takes in a message of the metadata extension.
    pub fn handle_metadata_message(
        &mut self,
        message: MetadataMessage,
        peer: &PeerId,
        now: u64,
    ) -> (r: Result<Action, TorrentError>)
        requires
            old(self).wf(),
        ensures
            final(self).wf(),
            match r {
                Ok(action) => old(self)@.handle_metadata(message@, *peer, now) matches Ok((m, a))
                    && final(self)@ == m && is_action(action, a),
                Err(e) => old(self)@.handle_metadata(message@, *peer, now) == Err::<
                    (TorrentModel, ActionModel),
                    _,
                >(e@) && final(self)@ == old(self)@.after_metadata_error(message@, *peer),
            },
            same_rest(*final(self), *old(self)),
    {
        match message {
            MetadataMessage::Request { index } => {
                self.send_metadata(index, peer);
                Ok(Action::Nothing)
            },
            MetadataMessage::Data { index, piece, .. } => {
                if self.transfer.is_none() && !self.metadata.has_obtained(index) {
                    self.receive_metadata(index, piece, peer, now)
                } else {
                    Ok(Action::Nothing)
                }
            },
            MetadataMessage::Reject { index } => {
                if self.transfer.is_none() {
                    if let Some(who) = self.metadata.who_downloading(index) {
                        if who == *peer {
                            let ghost m = self@;
                            self.metadata.reject(index, *peer);
                            self.sub_sent(peer);
                            assert(self@ =~= TorrentModel {
                                metadata: m.metadata.reject(index as int, *peer),
                                ..m.with_peer(*peer, |p: PeerModel| p.sub_sent(1))
                            });
                            self.dispatch_metadata_request(now);
                        }
                    }
                }
                Ok(Action::Nothing)
            },
            MetadataMessage::Unsupported { .. } => Ok(Action::Nothing),
        }
    }

    /// Takes in what a peer says of itself.
    fn handle_extension_handshake(
        &mut self,
        peer: &PeerId,
        client: Option<String>,
        extensions: &StrMap,
        metadata_size: Option<usize>,
        now: u64,
    )
        requires
            old(self).wf(),
        ensures
            final(self).wf(),
            final(self)@ == old(self)@.handle_extension_handshake(
                *peer,
                bit_torrent::text_of(client),
                extensions@,
                metadata_size,
                now,
            ),
            same_rest(*final(self), *old(self)),
    {
        let ghost m = self@;
        let ghost name = bit_torrent::text_of(client);
        let ghost f = |p: PeerModel| p.receive_extension_handshake(name, extensions@);
        match self.find(peer) {
            Some(i) => {
                let ghost before = self.peers@;
                self.peers.entries[i].1.receive_extension_handshake(client, extensions);
                proof {
                    assert(self.peers@ =~= before.update(
                        i as int,
                        (*peer, self.peers@[i as int].1),
                    ));
                    lemma_peer_changed(before, self.peers@, i as int, *peer, f);
                    assert(self@ =~= m.with_peer(*peer, f));
                }
            },
            None => {
                proof {
                    lemma_no_peer(m, *peer, f);
                }
            },
        }
        if let Some(size) = metadata_size {
            if self.transfer.is_none() && size / METADATA_BLOCK_SIZE > self.metadata.num_blocks() {
                let ghost told = self@;
                self.metadata.set_length_and_reset(size);
                assert(self@ =~= TorrentModel {
                    metadata: piece::fresh(
                        m.metadata.index,
                        m.metadata.block_size,
                        size,
                        m.metadata.hash,
                        false,
                    ),
                    ..told
                });
                self.dispatch_metadata_request(now);
            }
        }
    }

    /// Passes a message on to the transfer, or keeps it where there is none yet.
    fn pass_on(&mut self, peer: &PeerId, message: Message, now: u64) -> (r: Result<
        Action,
        TorrentError,
    >)
        requires
            old(self).wf(),
            old(self)@.transfer matches Some(t) ==> t.room(transfer::model::weight(message@)),
        ensures
            final(self).wf(),
            match r {
                Ok(action) => old(self)@.pass_on(*peer, message@, now) matches Ok((m, a))
                    && final(self)@ == m && is_action(action, a),
                Err(e) => old(self)@.pass_on(*peer, message@, now) == Err::<
                    (TorrentModel, ActionModel),
                    _,
                >(e@) && final(self)@ == old(self)@,
            },
            final(self).metainfo == old(self).metainfo,
            final(self).progress.trackers == old(self).progress.trackers,
            shows_message(
                old(self)@.transfer,
                message@,
                old(self).progress.transfer,
                final(self).progress.transfer,
            ),
    {
        let ghost m = self@;
        let ghost view = message@;
        if self.transfer.is_some() {
            if let Some(transfer) = &mut self.transfer {
                return match transfer.handle_event(peer, message, now, &mut self.progress) {
                    Ok(pending) => Ok(Action::Disk(pending)),
                    Err(e) => Err(TorrentError::Transfer(e)),
                };
            }
            return Ok(Action::Nothing);
        }
        let ghost f = |p: PeerModel| p.queue(view);
        match self.find(peer) {
            Some(i) => {
                let ghost before = self.peers@;
                self.peers.entries[i].1.queue_transfer_message(message);
                proof {
                    assert(self.peers@ =~= before.update(
                        i as int,
                        (*peer, self.peers@[i as int].1),
                    ));
                    lemma_peer_changed(before, self.peers@, i as int, *peer, f);
                    assert(self@ =~= m.with_peer(*peer, f));
                }
            },
            None => {
                proof {
                    lemma_no_peer(m, *peer, f);
                }
            },
        }
        Ok(Action::Nothing)
    }
}

/// What a message shows of the transfer: a block that was missing shows in the
/// counters and the pieces, and nothing else shows at once.
pub open spec fn shows_message(
    m: Option<TransferModel>,
    message: MessageModel,
    before: Option<TransferProgress>,
    after: Option<TransferProgress>,
) -> bool {
    match m {
        Some(t) if transfer::is_news(t, message) => transfer::shows_blocks(t, before, after),
        _ => after == before,
    }
}

impl Torrent {
    /// Takes in a connection that was made.
    fn handle_connection(
        &mut self,
        bit_torrent: BitTorrent,
        info: PeerInfo,
        known_id: Option<PeerId>,
    )
        requires
            old(self).wf(),
            known_id is Some && old(self)@.transfer is Some ==> info@.id is Some,
        ensures
            final(self).wf(),
            final(self)@ == old(self)@.handle_connection(
                bit_torrent.id,
                bit_torrent.supports_fast,
                bit_torrent.supports_dht,
                info@,
                known_id,
            ),
            same_rest(*final(self), *old(self)),
    {
        let ghost m = self@;
        let ghost view = info@;
        let id = bit_torrent.id;
        let supports_fast = bit_torrent.supports_fast;
        let supports_dht = bit_torrent.supports_dht;
        let joining = match known_id {
            Some(known) => {
                let ghost f = |p: PeerModel| PeerModel { state: StateModel::connected(), ..p };
                match self.find(&known) {
                    Some(i) => {
                        let ghost before = self.peers@;
                        self.peers.entries[i].1.reconnect();
                        proof {
                            assert(self.peers@ =~= before.update(
                                i as int,
                                (known, self.peers@[i as int].1),
                            ));
                            lemma_peer_changed(before, self.peers@, i as int, known, f);
                            assert(self@ =~= m.with_peer(known, f));
                        }
                    },
                    None => {
                        proof {
                            lemma_no_peer(m, known, f);
                        }
                    },
                }
                match info.id {
                    Some(id) => id,
                    None => id,
                }
            },
            None => {
                self.drop_attempts(&info);
                let ghost dropped = self@;
                let mut found = info;
                found.id = Some(id);
                let ghost seen = found@;
                assert(seen =~= PeerInfoView { id: Some(id), ..view });
                let mut k: usize = 0;
                while k < self.peers.entries.len() && !self.peers.entries[k].1.info.is_same_peer(
                    &found,
                )
                    invariant
                        k <= self.peers@.len(),
                        seen == found@,
                        dropped.peers == peer_views(self.peers@),
                        model::first_known(dropped.peers, seen, 0) == model::first_known(
                            dropped.peers,
                            seen,
                            k as int,
                        ),
                    decreases self.peers@.len() - k,
                {
                    assert(dropped.peers[k as int].1 == self.peers@[k as int].1@);
                    k += 1;
                }
                if k < self.peers.entries.len() {
                    let ghost before = self.peers@;
                    assert(dropped.peers[k as int] == (
                        before[k as int].0,
                        before[k as int].1@,
                    ));
                    self.peers.entries[k].1.info.merge(found);
                    proof {
                        let (at, p) = dropped.peers[k as int];
                        assert(self@.peers =~= dropped.peers.update(
                            k as int,
                            (at, PeerModel { info: types::merged(p.info, seen), ..p }),
                        ));
                        assoc::lemma_same_keys(dropped.peers, self@.peers);
                    }
                } else {
                    let ghost before = self.peers@;
                    let new = Peer::new(found, supports_fast, supports_dht);
                    let ghost added = new;
                    proof {
                        lemma_peer_keys(before);
                        assoc::lemma_inserted_keys(
                            dropped.peers,
                            id,
                            peer::fresh(seen, supports_fast, supports_dht),
                        );
                        if assoc::has_key(before, id) {
                            assert(assoc::key_at(before, assoc::index_of(before, id), id));
                        }
                    }
                    self.peers.insert(id, new);
                    assert(self@.peers =~= assoc::inserted(
                        dropped.peers,
                        id,
                        peer::fresh(seen, supports_fast, supports_dht),
                    ));
                }
                id
            },
        };
        if self.transfer.is_some() {
            if let Some(transfer) = &mut self.transfer {
                transfer.add_connection(joining, supports_fast);
            }
        }
        assert(self@ =~= m.handle_connection(id, supports_fast, supports_dht, view, known_id));
    }

    /// Takes in that a reconnection failed.
    fn back_off(&mut self, id: &PeerId, now: u64)
        requires
            old(self).wf(),
        ensures
            final(self).wf(),
            final(self)@ == old(self)@.with_peer(
                *id,
                |p: PeerModel| PeerModel { state: p.state.back_off(now), ..p },
            ),
            same_rest(*final(self), *old(self)),
    {
        let ghost m = self@;
        let ghost f = |p: PeerModel| PeerModel { state: p.state.back_off(now), ..p };
        match self.find(id) {
            Some(i) => {
                let ghost before = self.peers@;
                self.peers.entries[i].1.back_off(now);
                proof {
                    assert(self.peers@ =~= before.update(
                        i as int,
                        (*id, self.peers@[i as int].1),
                    ));
                    lemma_peer_changed(before, self.peers@, i as int, *id, f);
                    assert(self@ =~= m.with_peer(*id, f));
                }
            },
            None => {
                proof {
                    lemma_no_peer(m, *id, f);
                }
            },
        }
    }

    /// Takes in that a connection was lost.
    fn handle_disconnection(&mut self, peer: &PeerId, error: String, now: u64)
        requires
            old(self).wf(),
        ensures
            final(self).wf(),
            final(self)@ == old(self)@.handle_disconnection(*peer, error@, now),
            same_rest(*final(self), *old(self)),
    {
        let ghost m = self@;
        let ghost reason = error@;
        let ghost shown = self.progress.peers@;
        let ghost hide = |p: PeerProgressView| PeerProgressView { connection: None, ..p };
        proof {
            lemma_shown_keys(shown);
        }
        if self.transfer.is_some() {
            if let Some(transfer) = &mut self.transfer {
                transfer.sever_connection(peer, &mut self.progress);
            }
            proof {
                assoc::lemma_changed_keys(m.shown.peers, *peer, hide);
                if assoc::has_key(shown, *peer) {
                    assert(assoc::key_at(shown, assoc::index_of(shown, *peer), *peer));
                }
                assert(self@.shown.peers =~= assoc::changed(m.shown.peers, *peer, hide));
                assert(self@.shown =~= ProgressView {
                    peers: assoc::changed(m.shown.peers, *peer, hide),
                    ..m.shown
                });
            }
        }
        let ghost severed = self@;
        let ghost f = |p: PeerModel| p.disconnect(reason, now);
        match self.find(peer) {
            Some(i) => {
                let ghost before = self.peers@;
                self.peers.entries[i].1.disconnect(error, now);
                proof {
                    assert(self.peers@ =~= before.update(
                        i as int,
                        (*peer, self.peers@[i as int].1),
                    ));
                    lemma_peer_changed(before, self.peers@, i as int, *peer, f);
                    assert(self@ =~= severed.with_peer(*peer, f));
                }
            },
            None => {
                proof {
                    lemma_no_peer(severed, *peer, f);
                }
            },
        }
    }

    /// The number of peers that are connected.
    fn num_connected(&self) -> (r: usize)
        ensures
            r == model::count_connected(self@.peers),
    {
        let ghost all = self@.peers;
        let mut n: usize = 0;
        let mut i: usize = 0;
        while i < self.peers.entries.len()
            invariant
                i <= self.peers@.len(),
                all == peer_views(self.peers@),
                n <= i,
                n == model::count_connected(all.take(i as int)),
            decreases self.peers@.len() - i,
        {
            proof {
                assert(all.take(i as int + 1).drop_last() =~= all.take(i as int));
                assert(all.take(i as int + 1).last() == (
                    self.peers@[i as int].0,
                    self.peers@[i as int].1@,
                ));
            }
            if self.peers.entries[i].1.is_connected() {
                n += 1;
            }
            i += 1;
        }
        assert(all.take(i as int) =~= all);
        n
    }

    /// Shows peer `i` as it is now.
    fn show_peer(&mut self, i: usize)
        requires
            old(self).wf(),
            i < old(self).peers@.len(),
        ensures
            final(self).wf(),
            ({
                let (id, p) = old(self)@.peers[i as int];
                let shown = old(self)@.shown.peers;
                final(self)@ == TorrentModel {
                    shown: ProgressView {
                        peers: assoc::inserted(
                            shown,
                            id,
                            model::shown_peer(id, p, assoc::lookup(shown, id)),
                        ),
                        ..old(self)@.shown
                    },
                    ..old(self)@
                }
            }),
            final(self).peers == old(self).peers,
            same_rest(*final(self), *old(self)),
    {
        let ghost m = self@;
        let ghost before = self.progress.peers@;
        let ghost (gid, gp) = m.peers[i as int];
        let ghost want = model::shown_peer(gid, gp, assoc::lookup(m.shown.peers, gid));
        proof {
            lemma_shown_keys(before);
            assoc::lemma_inserted_keys(m.shown.peers, gid, want);
        }
        let id = self.peers.entries[i].0;
        let p = &self.peers.entries[i].1;
        let endpoints = p.info.copy().endpoints;
        let errors = text::copy_strings(&p.errors);
        let client = match &p.client {
            Some(client) => Some(client.clone()),
            None => None,
        };
        assert(bit_torrent::text_of(client) == gp.client);
        match self.progress.peers.position(&id) {
            Some(k) => {
                assert(m.shown.peers[k as int] == (id, before[k as int].1@));
                self.progress.peers.entries[k].1.id = id;
                self.progress.peers.entries[k].1.endpoints = endpoints;
                self.progress.peers.entries[k].1.errors = errors;
                self.progress.peers.entries[k].1.client = client;
                self.progress.peers.entries[k].1.supports_dht = p.supports_dht;
                self.progress.peers.entries[k].1.supports_fast = p.supports_fast;
                self.progress.peers.entries[k].1.supports_metadata = p.supports_metadata;
                self.progress.peers.entries[k].1.supports_pex = p.supports_pex;
                proof {
                    assert(self.progress.peers@ =~= before.update(
                        k as int,
                        (id, self.progress.peers@[k as int].1),
                    ));
                    assert(self.progress.peers@[k as int].1@ =~= want);
                    assert(self@.shown.peers =~= assoc::inserted(m.shown.peers, id, want));
                }
            },
            None => {
                let new = PeerProgress {
                    id,
                    endpoints,
                    errors,
                    client,
                    supports_dht: p.supports_dht,
                    supports_fast: p.supports_fast,
                    supports_metadata: p.supports_metadata,
                    supports_pex: p.supports_pex,
                    connection: None,
                };
                assert(new@ =~= want);
                self.progress.peers.insert(id, new);
                assert(self@.shown.peers =~= assoc::inserted(m.shown.peers, id, want));
            },
        }
        proof {
            lemma_shown_keys(self.progress.peers@);
            assert(self@.shown =~= ProgressView {
                peers: assoc::inserted(m.shown.peers, id, want),
                ..m.shown
            });
            assert(self@ =~= TorrentModel { shown: self@.shown, ..m });
        }
    }

    /// Shows the peers as they are now.
    fn update_progress(&mut self)
        requires
            old(self).wf(),
        ensures
            final(self).wf(),
            final(self)@ == old(self)@.update_progress(),
            same_rest(*final(self), *old(self)),
    {
        let ghost m = self@;
        self.progress.num_peers = self.peers.entries.len();
        self.progress.num_connected_peers = self.num_connected();
        self.progress.num_discovery_attempts = self.discovery_attempts.len();
        let ghost counted = ProgressView {
            num_peers: m.peers.len(),
            num_connected_peers: model::count_connected(m.peers),
            num_discovery_attempts: m.attempts.len(),
            ..m.shown
        };
        assert(self@.shown =~= counted);
        let n = self.peers.entries.len();
        let mut i: usize = 0;
        while i < n
            invariant
                i <= n,
                n == self.peers@.len(),
                m == old(self)@,
                n == m.peers.len(),
                self.wf(),
                counted.peers == m.shown.peers,
                self@ == (TorrentModel {
                    shown: ProgressView {
                        peers: model::shown_upto(m.shown.peers, m.peers, i as nat),
                        ..counted
                    },
                    ..m
                }),
                same_rest(*self, *old(self)),
            decreases n - i,
        {
            self.show_peer(i);
            i += 1;
        }
    }

    /// Takes in an event. `now` is in milliseconds.
    pub fn handle_event(&mut self, event: Event, now: u64) -> (r: Result<Action, TorrentError>)
        requires
            old(self).wf(),
            old(self)@.expects(event@),
        ensures
            final(self).wf(),
            match r {
                Ok(action) => old(self)@.handle(event@, now) matches Ok((m, a)) && final(self)@
                    == m && is_action(action, a),
                Err(e) => old(self)@.handle(event@, now) == Err::<(TorrentModel, ActionModel), _>(
                    e@,
                ) && final(self)@ == old(self)@.after_error(event@),
            },
            final(self).metainfo == old(self).metainfo,
            final(self).progress.trackers == old(self).progress.trackers,
            match event@ {
                EventModel::Message(peer, message) => if assoc::has_key(old(self)@.peers, peer) {
                    shows_message(
                        old(self)@.transfer,
                        message,
                        old(self).progress.transfer,
                        final(self).progress.transfer,
                    )
                } else {
                    final(self).progress.transfer == old(self).progress.transfer
                },
                _ => final(self).progress.transfer == old(self).progress.transfer,
            },
    {
        let mut action = Action::Nothing;
        match event {
            Event::Message(peer, message) => {
                if self.find(&peer).is_some() {
                    match self.handle_message(&peer, message, now) {
                        Ok(next) => {
                            action = next;
                        },
                        Err(e) => {
                            return Err(e);
                        },
                    }
                }
            },
            Event::Connection(bit_torrent, info, known_id) => {
                self.handle_connection(bit_torrent, info, known_id);
            },
            Event::ConnectionFailure(info, _, known_id) => {
                self.discover(&info, DiscoveryMechanism::Tracker);
                if let Some(id) = known_id {
                    self.back_off(&id, now);
                }
            },
            Event::Disconnection(peer, error) => {
                self.handle_disconnection(&peer, error, now);
            },
            Event::Tracker(infos) => {
                self.discover_all(&infos, DiscoveryMechanism::Tracker);
            },
        }
        self.update_progress();
        Ok(action)
    }

    /// Takes in a message from a peer that is known.
    fn handle_message(&mut self, peer: &PeerId, message: Message, now: u64) -> (r: Result<
        Action,
        TorrentError,
    >)
        requires
            old(self).wf(),
            assoc::has_key(old(self)@.peers, *peer),
            old(self)@.transfer matches Some(t) ==> t.room(transfer::model::weight(message@)),
        ensures
            final(self).wf(),
            match r {
                Ok(action) => old(self)@.handle_message(*peer, message@, now) matches Ok((m, a))
                    && final(self)@ == m && is_action(action, a),
                Err(e) => old(self)@.handle_message(*peer, message@, now) == Err::<
                    (TorrentModel, ActionModel),
                    _,
                >(e@) && final(self)@ == old(self)@.after_message_error(*peer, message@),
            },
            final(self).metainfo == old(self).metainfo,
            final(self).progress.trackers == old(self).progress.trackers,
            shows_message(
                old(self)@.transfer,
                message@,
                old(self).progress.transfer,
                final(self).progress.transfer,
            ),
    {
        match message {
            Message::Metadata(message) => self.handle_metadata_message(message, peer, now),
            Message::KeepAlive => Ok(Action::Nothing),
            Message::ExtensionHandshake { extensions, client, metadata_size, .. } => {
                self.handle_extension_handshake(peer, client, &extensions, metadata_size, now);
                Ok(Action::Nothing)
            },
            Message::PEX(message) => {
                self.discover_all(&message.added, DiscoveryMechanism::PEX);
                Ok(Action::Nothing)
            },
            Message::DHTPort { .. } => Ok(Action::Nothing),
            Message::Unsupported { .. } => Ok(Action::Nothing),
            Message::UnsupportedExtension { .. } => Ok(Action::Nothing),
            message => self.pass_on(peer, message, now),
        }
    }
}

/// Peers with the same counters.
pub open spec fn same_counters(a: Seq<(PeerId, PeerModel)>, b: Seq<(PeerId, PeerModel)>) -> bool {
    &&& a.len() == b.len()
    &&& forall|i: int|
        0 <= i < a.len() ==> (#[trigger] a[i]).1.uploaded_metadata == b[i].1.uploaded_metadata
            && a[i].1.downloaded_metadata == b[i].1.downloaded_metadata
}

proof fn lemma_same_counters(a: Seq<(PeerId, PeerModel)>, b: Seq<(PeerId, PeerModel)>)
    requires
        same_counters(a, b),
    ensures
        model::sum_uploaded(a) == model::sum_uploaded(b),
        model::sum_downloaded(a) == model::sum_downloaded(b),
    decreases a.len(),
{
    if a.len() > 0 {
        let x = a.drop_last();
        let y = b.drop_last();
        assert forall|i: int| 0 <= i < x.len() implies (#[trigger] x[i]).1.uploaded_metadata
            == y[i].1.uploaded_metadata && x[i].1.downloaded_metadata
            == y[i].1.downloaded_metadata by {
            assert(x[i] == a[i]);
        }
        assert(a.last() == a[a.len() - 1]);
        lemma_same_counters(x, y);
    }
}

/// Asking for metadata counts no traffic.
proof fn lemma_dispatch_counters(m: TorrentModel, n: nat, now: u64)
    ensures
        same_counters(m.dispatch_upto(n, now).peers, m.peers),
    decreases n,
{
    if n > 0 {
        let before = m.dispatch_upto((n - 1) as nat, now);
        lemma_dispatch_counters(m, (n - 1) as nat, now);
        lemma_dispatch_one_counters(before, n - 1, now);
        let after = before.dispatch_one(n - 1, now).peers;
        assert forall|i: int| 0 <= i < after.len() implies (#[trigger] after[i]).1.uploaded_metadata
            == m.peers[i].1.uploaded_metadata && after[i].1.downloaded_metadata
            == m.peers[i].1.downloaded_metadata by {
            assert(before.peers[i].1.uploaded_metadata == m.peers[i].1.uploaded_metadata);
        }
    }
}

proof fn lemma_dispatch_one_counters(m: TorrentModel, i: int, now: u64)
    ensures
        same_counters(m.dispatch_one(i, now).peers, m.peers),
    decreases
            (if 0 <= i < m.peers.len() {
                peer::MAX_METADATA_REQUESTS - m.peers[i].1.sent_metadata_requests
            } else {
                0
            }),
{
    if 0 <= i < m.peers.len() && m.peers[i].1.can_request_metadata() {
        if let Some(block) = m.metadata.first_free(m.peers[i].0) {
            let next = m.request_metadata(i, block, now);
            lemma_dispatch_one_counters(next, i, now);
            let after = next.dispatch_one(i, now).peers;
            assert forall|j: int| 0 <= j < after.len() implies (
            #[trigger] after[j]).1.uploaded_metadata == m.peers[j].1.uploaded_metadata
                && after[j].1.downloaded_metadata == m.peers[j].1.downloaded_metadata by {
                assert(next.peers[j].1.uploaded_metadata == m.peers[j].1.uploaded_metadata);
            }
        }
    }
}

proof fn lemma_timed_out(peers: Seq<(PeerId, PeerModel)>, late: Seq<PeerId>)
    ensures
        same_counters(model::timed_out(peers, late), peers),
        assoc::distinct_keys(peers) ==> assoc::distinct_keys(model::timed_out(peers, late)),
    decreases late.len(),
{
    if late.len() > 0 {
        let f = |p: PeerModel| p.sub_sent(1);
        let before = model::timed_out(peers, late.drop_last());
        lemma_timed_out(peers, late.drop_last());
        assoc::lemma_changed_keys(before, late.last(), f);
        let after = model::timed_out(peers, late);
        if assoc::has_key(before, late.last()) {
            assert(assoc::key_at(before, assoc::index_of(before, late.last()), late.last()));
        }
        assert forall|j: int| 0 <= j < after.len() implies (#[trigger] after[j]).1.uploaded_metadata
            == peers[j].1.uploaded_metadata && after[j].1.downloaded_metadata
            == peers[j].1.downloaded_metadata by {
            assert(before[j].1.uploaded_metadata == peers[j].1.uploaded_metadata);
        }
    }
}

/// The status of the search for peers, as text.
pub open spec fn status_of(attempts: Seq<AttemptModel>) -> Seq<char> {
    "    Discovery attemps:\n        Tracker: "@ + number::decimal(
        model::count_mechanism(attempts, DiscoveryMechanism::Tracker),
    ) + "\n        PEX: "@ + number::decimal(
        model::count_mechanism(attempts, DiscoveryMechanism::PEX),
    )
}

impl Torrent {
    /// How many attempts there are at peers that came to be known this way.
    fn count_attempts(&self, mechanism: DiscoveryMechanism) -> (r: usize)
        ensures
            r == model::count_mechanism(self@.attempts, mechanism),
    {
        let ghost all = self@.attempts;
        let mut n: usize = 0;
        let mut i: usize = 0;
        while i < self.discovery_attempts.len()
            invariant
                i <= self.discovery_attempts@.len(),
                all == attempt_views(self.discovery_attempts@),
                n <= i,
                n == model::count_mechanism(all.take(i as int), mechanism),
            decreases self.discovery_attempts@.len() - i,
        {
            proof {
                assert(all.take(i as int + 1).drop_last() =~= all.take(i as int));
                assert(all.take(i as int + 1).last() == self.discovery_attempts@[i as int]@);
            }
            if self.discovery_attempts[i].mechanism == mechanism {
                n += 1;
            }
            i += 1;
        }
        assert(all.take(i as int) =~= all);
        n
    }

    /// Shows the second's metadata traffic, starts the counters over, and gives
    /// the status of the search for peers as text.
    pub fn statistics(&mut self) -> (r: String)
        requires
            old(self).wf(),
            METADATA_BLOCK_SIZE * model::sum_downloaded(old(self)@.peers) <= usize::MAX,
            METADATA_BLOCK_SIZE * model::sum_uploaded(old(self)@.peers) <= usize::MAX,
        ensures
            final(self).wf(),
            final(self)@ == old(self)@.statistics(),
            same_rest(*final(self), *old(self)),
            final(self).transfer == old(self).transfer,
            r@ == status_of(old(self)@.attempts),
    {
        let mut status = "    Discovery attemps:\n        Tracker: ".to_owned();
        number::push_decimal(&mut status, self.count_attempts(DiscoveryMechanism::Tracker) as u64);
        status.append("\n        PEX: ");
        number::push_decimal(&mut status, self.count_attempts(DiscoveryMechanism::PEX) as u64);
        let ghost m = self@;
        let ghost want = m.statistics().peers;
        let mut uploaded: usize = 0;
        let mut downloaded: usize = 0;
        let n = self.peers.entries.len();
        let mut i: usize = 0;
        while i < n
            invariant
                i <= n,
                n == self.peers@.len(),
                m == old(self)@,
                n == m.peers.len(),
                want == m.statistics().peers,
                METADATA_BLOCK_SIZE * model::sum_downloaded(m.peers) <= usize::MAX,
                METADATA_BLOCK_SIZE * model::sum_uploaded(m.peers) <= usize::MAX,
                uploaded == model::sum_uploaded(m.peers.take(i as int)),
                downloaded == model::sum_downloaded(m.peers.take(i as int)),
                *self == (Torrent { peers: self.peers, ..*old(self) }),
                forall|j: int|
                    0 <= j < n ==> #[trigger] self@.peers[j] == if j < i {
                        want[j]
                    } else {
                        m.peers[j]
                    },
            decreases n - i,
        {
            proof {
                assert(m.peers.take(i as int + 1).drop_last() =~= m.peers.take(i as int));
                assert(m.peers.take(i as int + 1).last() == m.peers[i as int]);
                lemma_sums_prefix(m.peers, i as int + 1);
                assert(self@.peers[i as int] == (
                    self.peers@[i as int].0,
                    self.peers@[i as int].1@,
                ));
            }
            let ghost before = self.peers@;
            uploaded += self.peers.entries[i].1.uploaded_metadata;
            downloaded += self.peers.entries[i].1.downloaded_metadata;
            self.peers.entries[i].1.reset_statistics();
            proof {
                assert(self.peers@ =~= before.update(
                    i as int,
                    (before[i as int].0, self.peers@[i as int].1),
                ));
                assert(self@.peers =~= peer_views(before).update(i as int, want[i as int]));
            }
            i += 1;
        }
        proof {
            assert(m.peers.take(i as int) =~= m.peers);
            assert(self@.peers =~= want);
            assoc::lemma_same_keys(m.peers, want);
        }
        self.progress.metadata_down_speed = METADATA_BLOCK_SIZE * downloaded;
        self.progress.metadata_up_speed = METADATA_BLOCK_SIZE * uploaded;
        assert(self@ =~= m.statistics());
        status
    }

    /// Gives up the metadata's late requests, and asks for metadata again.
    fn expire_metadata(&mut self, now: u64)
        requires
            old(self).wf(),
        ensures
            final(self).wf(),
            final(self)@ == old(self)@.expire_metadata(now),
            *final(self) == (Torrent {
                peers: final(self).peers,
                metadata: final(self).metadata,
                ..*old(self)
            }),
    {
        let ghost m = self@;
        let late = self.metadata.check_timeout(now);
        let ghost expired = TorrentModel { metadata: m.metadata.expire(now), ..m };
        assert(self@ =~= expired);
        let ghost f = |p: PeerModel| p.sub_sent(1);
        let mut k: usize = 0;
        assert(late@.take(0) =~= Seq::empty());
        while k < late.len()
            invariant
                k <= late@.len(),
                self.wf(),
                f == (|p: PeerModel| p.sub_sent(1)),
                expired.peers == m.peers,
                self@ == (TorrentModel {
                    peers: model::timed_out(m.peers, late@.take(k as int)),
                    ..expired
                }),
                *self == (Torrent { peers: self.peers, metadata: self.metadata, ..*old(self) }),
            decreases late@.len() - k,
        {
            proof {
                assert(late@.take(k as int + 1).drop_last() =~= late@.take(k as int));
                assert(late@.take(k as int + 1).last() == late@[k as int]);
            }
            self.timeout_metadata(&late[k]);
            k += 1;
        }
        assert(late@.take(k as int) =~= late@);
        self.dispatch_metadata_request(now);
    }

    /// Counts a request to a peer that timed out.
    fn timeout_metadata(&mut self, peer: &PeerId)
        requires
            old(self).wf(),
        ensures
            final(self).wf(),
            final(self)@ == old(self)@.with_peer(*peer, |p: PeerModel| p.sub_sent(1)),
            *final(self) == (Torrent { peers: final(self).peers, ..*old(self) }),
    {
        let ghost m = self@;
        let ghost f = |p: PeerModel| p.sub_sent(1);
        match self.find(peer) {
            Some(i) => {
                let ghost before = self.peers@;
                self.peers.entries[i].1.timeout_metadata(1);
                proof {
                    assert(self.peers@ =~= before.update(
                        i as int,
                        (*peer, self.peers@[i as int].1),
                    ));
                    lemma_peer_changed(before, self.peers@, i as int, *peer, f);
                    assert(self@ =~= m.with_peer(*peer, f));
                }
            },
            None => {
                proof {
                    lemma_no_peer(m, *peer, f);
                }
            },
        }
    }

    /// Begins reconnections to the peers that it is time for.
    fn reconnect(&mut self, now: u64)
        requires
            old(self).wf(),
        ensures
            final(self).wf(),
            final(self)@ == old(self)@.reconnect(now),
            *final(self) == (Torrent {
                peers: final(self).peers,
                connects: final(self).connects,
                ..*old(self)
            }),
    {
        let ghost m = self@;
        let ghost want = m.reconnect(now).peers;
        let n = self.peers.entries.len();
        let mut i: usize = 0;
        assert(m.connects + model::due_upto(m.peers, 0, now) =~= m.connects);
        while i < n
            invariant
                i <= n,
                n == self.peers@.len(),
                m == old(self)@,
                n == m.peers.len(),
                want == m.reconnect(now).peers,
                self@.connects == m.connects + model::due_upto(m.peers, i as nat, now),
                *self == (Torrent { peers: self.peers, connects: self.connects, ..*old(self) }),
                forall|j: int|
                    0 <= j < n ==> #[trigger] self@.peers[j] == if j < i {
                        want[j]
                    } else {
                        m.peers[j]
                    },
            decreases n - i,
        {
            let ghost before = self.peers@;
            proof {
                assert(self@.peers[i as int] == (before[i as int].0, before[i as int].1@));
            }
            let due = self.peers.entries[i].1.try_reconnect(now);
            proof {
                assert(self.peers@ =~= before.update(
                    i as int,
                    (before[i as int].0, self.peers@[i as int].1),
                ));
                assert(self@.peers =~= peer_views(before).update(i as int, want[i as int]));
            }
            if due {
                let info = self.peers.entries[i].1.info.copy();
                let id = info.id;
                let ghost connects = self@.connects;
                self.try_connect(&info, id);
                assert(self@.connects =~= m.connects + model::due_upto(m.peers, i as nat + 1, now));
            }
            i += 1;
        }
        proof {
            assert(self@.peers =~= want);
            assoc::lemma_same_keys(m.peers, want);
            assert(self@ =~= m.reconnect(now));
        }
    }

    /// Lets a second pass for the transfer.
    fn tick_transfer(&mut self, now: u64) -> (r: Vec<Report>)
        requires
            old(self).wf(),
            old(self)@.transfer matches Some(t) ==> t.room_for_tick(),
        ensures
            final(self).wf(),
            final(self)@ == old(self)@.tick_transfer(now),
            final(self).metainfo == old(self).metainfo,
            final(self).progress.trackers == old(self).progress.trackers,
            shows_tick(
                old(self)@.transfer,
                old(self).progress.transfer,
                final(self).progress.transfer,
                now,
            ),
            reports_tick(old(self)@.transfer, r@, now),
    {
        let ghost m = self@;
        let ghost shown = self.progress.peers@;
        let mut reports: Vec<Report> = Vec::new();
        if self.transfer.is_some() {
            if let Some(transfer) = &mut self.transfer {
                reports = transfer.tick(now, &mut self.progress);
            }
            proof {
                let t = m.transfer->0;
                let want = model::shown_connections(
                    m.shown.peers,
                    t.expire_upto(t.pieces.len(), now),
                );
                let after = self.progress.peers@;
                assert forall|i: int| 0 <= i < after.len() implies #[trigger] control::peer_views(
                    after,
                )[i] == want[i] by {
                    assert(m.shown.peers[i] == (shown[i].0, shown[i].1@));
                    let (id, a) = after[i];
                    assert(control::peer_views(after)[i] == (id, a@));
                    assert(a@ =~= want[i].1);
                }
                assert(self@.shown.peers =~= want);
                assoc::lemma_same_keys(m.shown.peers, want);
                assert(self@.shown =~= ProgressView { peers: want, ..m.shown });
                assert(self@ =~= m.tick_transfer(now));
            }
        }
        reports
    }

    /// Whether the counters can take a tick.
    pub fn has_room_for_tick(&self) -> (r: bool)
        ensures
            r == self@.room_for_tick(),
    {
        let ghost all = self@.peers;
        let mut uploaded: u128 = 0;
        let mut downloaded: u128 = 0;
        let mut i: usize = 0;
        while i < self.peers.entries.len()
            invariant
                i <= self.peers@.len(),
                all == peer_views(self.peers@),
                all == self@.peers,
                uploaded == model::sum_uploaded(all.take(i as int)),
                downloaded == model::sum_downloaded(all.take(i as int)),
                METADATA_BLOCK_SIZE * uploaded <= usize::MAX,
                METADATA_BLOCK_SIZE * downloaded <= usize::MAX,
            decreases self.peers@.len() - i,
        {
            proof {
                assert(all.take(i as int + 1).drop_last() =~= all.take(i as int));
                assert(all.take(i as int + 1).last() == (
                    self.peers@[i as int].0,
                    self.peers@[i as int].1@,
                ));
                lemma_sums_prefix(all, i as int + 1);
            }
            uploaded += self.peers.entries[i].1.uploaded_metadata as u128;
            downloaded += self.peers.entries[i].1.downloaded_metadata as u128;
            if METADATA_BLOCK_SIZE as u128 * uploaded > usize::MAX as u128
                || METADATA_BLOCK_SIZE as u128 * downloaded > usize::MAX as u128 {
                return false;
            }
            i += 1;
        }
        assert(all.take(i as int) =~= all);
        match &self.transfer {
            Some(transfer) => transfer.has_room_for_tick(),
            None => true,
        }
    }

    /// What happens once a second; gives the status of the search for peers as
    /// text, and what each of the transfer's connections did. `now` is in
    /// milliseconds.
    pub fn tick(&mut self, now: u64) -> (r: (String, Vec<Report>))
        requires
            old(self).wf(),
            old(self)@.room_for_tick(),
        ensures
            final(self).wf(),
            final(self)@ == old(self)@.tick(now),
            final(self).metainfo == old(self).metainfo,
            final(self).progress.trackers == old(self).progress.trackers,
            shows_tick(
                old(self)@.transfer,
                old(self).progress.transfer,
                final(self).progress.transfer,
                now,
            ),
            r.0@ == status_of(old(self)@.attempts),
            reports_tick(old(self)@.transfer, r.1@, now),
    {
        let ghost m = self@;
        if self.transfer.is_none() {
            proof {
                let late = piece::late_peers(m.metadata.blocks, now);
                let expired = TorrentModel {
                    metadata: m.metadata.expire(now),
                    peers: model::timed_out(m.peers, late),
                    ..m
                };
                lemma_timed_out(m.peers, late);
                lemma_dispatch_counters(expired, expired.peers.len(), now);
                lemma_same_counters(m.expire_metadata(now).peers, expired.peers);
                lemma_same_counters(expired.peers, m.peers);
                lemma_dispatch_attempts(expired, expired.peers.len(), now);
            }
            self.expire_metadata(now);
        }
        let ghost asked = self@;
        self.reconnect(now);
        proof {
            assert(same_counters(asked.reconnect(now).peers, asked.peers));
            lemma_same_counters(asked.reconnect(now).peers, asked.peers);
        }
        let status = self.statistics();
        let reports = self.tick_transfer(now);
        (status, reports)
    }
}

/// Asking for metadata tries no peer and leaves the transfer alone.
pub proof fn lemma_dispatch_attempts(m: TorrentModel, n: nat, now: u64)
    ensures
        m.dispatch_upto(n, now).attempts == m.attempts,
        m.dispatch_upto(n, now).transfer == m.transfer,
    decreases n,
{
    if n > 0 {
        lemma_dispatch_attempts(m, (n - 1) as nat, now);
        lemma_dispatch_one_attempts(m.dispatch_upto((n - 1) as nat, now), n - 1, now);
    }
}

proof fn lemma_dispatch_one_attempts(m: TorrentModel, i: int, now: u64)
    ensures
        m.dispatch_one(i, now).attempts == m.attempts,
        m.dispatch_one(i, now).transfer == m.transfer,
    decreases
            (if 0 <= i < m.peers.len() {
                peer::MAX_METADATA_REQUESTS - m.peers[i].1.sent_metadata_requests
            } else {
                0
            }),
{
    if 0 <= i < m.peers.len() && m.peers[i].1.can_request_metadata() {
        if let Some(block) = m.metadata.first_free(m.peers[i].0) {
            lemma_dispatch_one_attempts(m.request_metadata(i, block, now), i, now);
        }
    }
}

/// The sums over the first peers are no more than those over all.
proof fn lemma_sums_prefix(peers: Seq<(PeerId, PeerModel)>, n: int)
    requires
        0 <= n <= peers.len(),
    ensures
        model::sum_uploaded(peers.take(n)) <= model::sum_uploaded(peers),
        model::sum_downloaded(peers.take(n)) <= model::sum_downloaded(peers),
    decreases peers.len(),
{
    if n < peers.len() {
        lemma_sums_prefix(peers.drop_last(), n);
        assert(peers.drop_last().take(n) =~= peers.take(n));
    } else {
        assert(peers.take(n) =~= peers);
    }
}

/// What a second's reports say of the transfer: what its connections did once the
/// late requests were given up.
pub open spec fn reports_tick(m: Option<TransferModel>, r: Seq<Report>, now: u64) -> bool {
    match m {
        Some(t) => connection::reported(r, t.expire_upto(t.pieces.len(), now).connections),
        None => r.len() == 0,
    }
}

/// What a second shows of the transfer.
pub open spec fn shows_tick(
    m: Option<TransferModel>,
    before: Option<TransferProgress>,
    after: Option<TransferProgress>,
    now: u64,
) -> bool {
    match m {
        Some(t) => after matches Some(a) && transfer::shows_speeds(
            t.expire_upto(t.pieces.len(), now),
            before,
            a,
        ),
        None => after == before,
    }
}

/// A torrent that has just been added.
pub open spec fn added(
    client_id: PeerId,
    info_hash: Sha1Hash,
    metadata: PieceModel,
    display_name: Seq<char>,
) -> TorrentModel {
    TorrentModel {
        client_id,
        info_hash,
        peers: Seq::empty(),
        attempts: Seq::empty(),
        transfer: None,
        metadata,
        connects: Seq::empty(),
        backlog: Seq::empty(),
        shown: ProgressView {
            num_discovery_attempts: 0,
            num_peers: 0,
            num_connected_peers: 0,
            display_name,
            metadata_down_speed: 0,
            metadata_up_speed: 0,
            metadata_bits: metadata.bits(),
            peers: Seq::empty(),
        },
    }
}

/// The trackers of a torrent that has just been added: those of its tiers, in
/// random order, and none of them has been asked. The torrent lists them in the
/// order of its tiers.
pub open spec fn added_trackers(t: Torrent, trackers: TrackersModel) -> bool {
    let tiers = metainfo::tier_views(t.metainfo.announces@);
    &&& tracker::same_tiers(trackers.urls, tiers)
    &&& trackers.client_id == t.client_id
    &&& trackers.info_hash == t.metainfo.info_hash
    &&& trackers.interval is None
    &&& trackers.min_interval is None
    &&& trackers.seeders is None
    &&& trackers.leechers is None
    &&& trackers.peers == Seq::<PeerInfoView>::empty()
    &&& control::tracker_views(t.progress.trackers@) == tracker::listed(
        Seq::empty(),
        tiers,
        tiers.len(),
    )
}

/// A copy of the tiers.
fn copy_tiers(tiers: &Vec<Vec<String>>) -> (r: Vec<Vec<String>>)
    ensures
        metainfo::tier_views(r@) == metainfo::tier_views(tiers@),
{
    let mut r: Vec<Vec<String>> = Vec::new();
    let mut i: usize = 0;
    while i < tiers.len()
        invariant
            i <= tiers@.len(),
            r@.len() == i,
            forall|j: int|
                0 <= j < i ==> text::texts((#[trigger] r@[j])@) == text::texts(tiers@[j]@),
        decreases tiers@.len() - i,
    {
        r.push(text::copy_strings(&tiers[i]));
        i += 1;
    }
    assert(metainfo::tier_views(r@) =~= metainfo::tier_views(tiers@));
    r
}

impl Torrent {
    /// A torrent that has just been added, and its trackers.
    fn add(metainfo: Metainfo, metadata: Piece, display_name: String, client_id: PeerId) -> (r: (
        Torrent,
        Trackers,
    ))
        requires
            metadata.wf(),
            metadata.block_size == METADATA_BLOCK_SIZE,
        ensures
            r.0.wf(),
            r.0@ == added(client_id, metainfo.info_hash, metadata@, display_name@),
            r.0.metainfo == metainfo,
            r.0.progress.transfer is None,
            added_trackers(r.0, r.1@),
    {
        let mut infos: Vec<TrackerInfo> = Vec::new();
        assert(control::tracker_views(infos@) =~= Seq::empty());
        let tiers = copy_tiers(&metainfo.announces);
        let trackers = Trackers::new(client_id, metainfo.info_hash, tiers, &mut infos);
        assert(metainfo::tier_views(metainfo.announces@).len() == tiers@.len());
        let metadata_bitfield = metadata.to_bitfield();
        let torrent = Torrent {
            metainfo,
            client_id,
            peers: PeerMap::new(),
            discovery_attempts: Vec::new(),
            transfer: None,
            metadata,
            connects: Vec::new(),
            backlog: Vec::new(),
            progress: Progress {
                num_discovery_attempts: 0,
                num_peers: 0,
                num_connected_peers: 0,
                display_name,
                metadata_down_speed: 0,
                metadata_up_speed: 0,
                metadata_bitfield,
                transfer: None,
                peers: PeerMap::new(),
                trackers: infos,
            },
        };
        proof {
            assert(torrent@.peers =~= Seq::empty());
            assert(torrent@.attempts =~= Seq::empty());
            assert(torrent@.connects =~= Seq::empty());
            assert(torrent@.backlog =~= Seq::empty());
            assert(torrent@.shown.peers =~= Seq::empty());
            assert(torrent@ =~= added(
                client_id,
                metainfo.info_hash,
                metadata@,
                torrent.progress.display_name@,
            ));
        }
        (torrent, trackers)
    }

    /// The torrent of a magnet link that has been read, and its trackers. Nothing
    /// is known of its metadata but the hash.
    pub fn from_link(magnet: Magnet, client_id: PeerId) -> (r: (Torrent, Trackers))
        ensures
            r.0.wf(),
            r.0@ == added(
                client_id,
                magnet.info_hash,
                piece::fresh(None, METADATA_BLOCK_SIZE, 0, magnet.info_hash, false),
                magnet@.display_name,
            ),
            metainfo::tier_views(r.0.metainfo.announces@) == seq![magnet@.trackers],
            r.0.progress.transfer is None,
            added_trackers(r.0, r.1@),
    {
        let metadata = Piece::new(None, METADATA_BLOCK_SIZE, 0, magnet.info_hash, false);
        let metainfo = Metainfo::from_magnet(magnet.info_hash, magnet.trackers);
        Torrent::add(metainfo, metadata, magnet.display_name, client_id)
    }

    /// The torrent of a magnet link, and its trackers; none where the link does
    /// not say all that it has to.
    pub fn from_magnet(url: &str, client_id: PeerId) -> (r: Option<(Torrent, Trackers)>)
        ensures
            match (r, magnet::query_pairs_of(url@)) {
                (Some((torrent, trackers)), Some(pairs)) => magnet::magnet_of(pairs) matches Some(
                    magnet,
                ) && {
                    let info_hash = torrent.metainfo.info_hash;
                    &&& info_hash.bytes@ == magnet.info_hash
                    &&& torrent.wf()
                    &&& torrent@ == added(
                        client_id,
                        info_hash,
                        piece::fresh(None, METADATA_BLOCK_SIZE, 0, info_hash, false),
                        magnet.display_name,
                    )
                    &&& metainfo::tier_views(torrent.metainfo.announces@) == seq![magnet.trackers]
                    &&& torrent.progress.transfer is None
                    &&& added_trackers(torrent, trackers@)
                },
                (None, Some(pairs)) => magnet::magnet_of(pairs) is None,
                (r, None) => r is None,
            },
    {
        match Magnet::from_url(url) {
            Some(magnet) => Some(Torrent::from_link(magnet, client_id)),
            None => None,
        }
    }

    /// The torrent of a torrent file's bytes, its trackers, and the metadata with
    /// which its transfer is to be started.
    pub fn from_torrent_file(file: &[u8], client_id: PeerId) -> (r: Result<
        (Torrent, Trackers, Metadata),
        String,
    >)
        ensures
            match (r, metainfo::parse_metainfo(file@)) {
                (Ok((torrent, trackers, metadata)), Ok((announces, bytes))) => {
                    let info_hash = torrent.metainfo.info_hash;
                    &&& metainfo::parse_info(bytes) matches Ok(info) && metainfo::says(
                        metadata,
                        info,
                    ) && torrent@ == added(
                        client_id,
                        info_hash,
                        PieceModel {
                            data: bytes,
                            written: false,
                            ..piece::fresh(
                                None,
                                METADATA_BLOCK_SIZE,
                                bytes.len() as usize,
                                info_hash,
                                true,
                            )
                        },
                        info.name,
                    )
                    &&& info_hash.bytes@ == digest::sha1_digest(bytes)
                    &&& torrent.wf()
                    &&& metainfo::tier_views(torrent.metainfo.announces@) == announces
                    &&& torrent.progress.transfer is None
                    &&& added_trackers(torrent, trackers@)
                },
                (Err(e), Ok((_, bytes))) => metainfo::parse_info(bytes) == Err::<InfoModel, _>(e@),
                (Err(e), Err(text)) => e@ == text,
                (Ok(_), Err(_)) => false,
            },
    {
        let (metainfo, bytes) = match Metainfo::from_bytes(file) {
            Ok(parsed) => parsed,
            Err(e) => {
                return Err(e);
            },
        };
        let metadata = match Metadata::from_bytes(bytes.as_slice()) {
            Ok(metadata) => metadata,
            Err(e) => {
                return Err(e);
            },
        };
        let piece = Piece::from_slice(METADATA_BLOCK_SIZE, metainfo.info_hash, bytes.as_slice());
        let (torrent, trackers) = Torrent::add(metainfo, piece, metadata.name.clone(), client_id);
        Ok((torrent, trackers, metadata))
    }

    /// Whether the transfer's counters can take what an event may add.
    pub fn has_room(&self, event: &Event) -> (r: bool)
        ensures
            r ==> (event@ matches EventModel::Message(_, message) ==> self@.transfer matches Some(t)
                ==> t.room(transfer::model::weight(message))),
            !r ==> (event@ matches EventModel::Message(_, message) && self@.transfer matches Some(t)
                && (!t.room(transfer::model::weight(message)) || transfer::model::weight(message)
                > usize::MAX)),
    {
        match (event, &self.transfer) {
            (Event::Message(_, message), Some(transfer)) => transfer.has_room(message),
            _ => true,
        }
    }

    /// Takes in a command. There is none yet that changes anything.
    pub fn handle_command(&mut self, _command: Command)
        ensures
            *final(self) == *old(self),
    {
    }
}

/// The pieces that a saved state marks, or none.
pub open spec fn saved_pieces(metadata: Metadata, saved: Option<Vec<u8>>) -> Seq<u8> {
    match saved {
        Some(bytes) => bytes@,
        None => Seq::new(
            bitfield::bytes_for(metadata.num_pieces as int) as nat,
            |i: int| 0u8,
        ),
    }
}

/// Messages for peers.
pub open spec fn outbox_views(s: Seq<(PeerId, Vec<Message>)>) -> Seq<(PeerId, Seq<MessageModel>)> {
    s.map_values(|e: (PeerId, Vec<Message>)| (e.0, connection::message_views(e.1@)))
}

/// The messages that are queued for the peers.
pub open spec fn peer_outboxes(peers: Seq<(PeerId, PeerModel)>) -> Seq<
    (PeerId, Seq<MessageModel>),
> {
    peers.map_values(|e: (PeerId, PeerModel)| (e.0, e.1.outbox))
}

/// The messages that are queued in the transfer.
pub open spec fn transfer_outboxes(m: Option<TransferModel>) -> Seq<(PeerId, Seq<MessageModel>)> {
    match m {
        Some(t) => t.connections.map_values(|e: (PeerId, ConnectionModel)| (e.0, e.1.outbox)),
        None => Seq::empty(),
    }
}

/// The transfer without the messages that are queued in it.
pub open spec fn emptied(m: Option<TransferModel>) -> Option<TransferModel> {
    match m {
        Some(t) => Some(
            TransferModel {
                connections: Seq::new(
                    t.connections.len(),
                    |i: int|
                        (
                            t.connections[i].0,
                            ConnectionModel { outbox: Seq::empty(), ..t.connections[i].1 },
                        ),
                ),
                ..t
            },
        ),
        None => None,
    }
}

impl Torrent {
    /// Queues what is left to do for a peer once a transfer has started.
    fn queue_backlog(&mut self, i: usize)
        requires
            old(self).wf(),
            i < old(self).peers@.len(),
        ensures
            final(self).wf(),
            final(self)@.backlog == old(self)@.backlog + model::backlog_of(
                old(self)@.peers[i as int].0,
                old(self)@.peers[i as int].1,
            ),
            *final(self) == (Torrent {
                peers: final(self).peers,
                backlog: final(self).backlog,
                ..*old(self)
            }),
            final(self)@.peers == old(self)@.peers.update(
                i as int,
                if old(self)@.peers[i as int].1.state is Connected {
                    (
                        old(self)@.peers[i as int].0,
                        PeerModel {
                            state: StateModel::connected(),
                            ..old(self)@.peers[i as int].1
                        },
                    )
                } else {
                    old(self)@.peers[i as int]
                },
            ),
    {
        let ghost m = self@;
        let ghost before = self.peers@;
        let id = self.peers.entries[i].0;
        assert(m.peers[i as int] == (id, before[i as int].1@));
        let supports_fast = self.peers.entries[i].1.supports_fast;
        let initial = self.peers.entries[i].1.take_initial_messages();
        proof {
            assert(self.peers@ =~= before.update(i as int, (id, self.peers@[i as int].1)));
            let next = (id, self.peers@[i as int].1@);
            assert(self@.peers =~= m.peers.update(i as int, next));
            assoc::lemma_same_keys(m.peers, self@.peers);
        }
        if let Some(mut messages) = initial {
            let ghost all = connection::message_views(messages@);
            let ghost f = |m: MessageModel| BacklogModel::Message { peer: id, message: m };
            let ghost start = m.backlog.push(BacklogModel::Connect { peer: id, supports_fast });
            self.backlog.push(Backlog::Connect { peer: id, supports_fast });
            proof {
                assert(self@.backlog =~= start);
                assert(start + all.take(0).map_values(f) =~= start);
            }
            let total = messages.len();
            let mut k: usize = 0;
            while k < total
                invariant
                    k <= total,
                    total == all.len(),
                    messages@.len() == total - k,
                    connection::message_views(messages@) == all.skip(k as int),
                    f == (|m: MessageModel| BacklogModel::Message { peer: id, message: m }),
                    self@.backlog == start + all.take(k as int).map_values(f),
                    *self == (Torrent { peers: self.peers, backlog: self.backlog, ..*old(self) }),
                    self.wf(),
                    self@.peers == m.peers.update(i as int, self@.peers[i as int]),
                    self@.peers[i as int] == (
                        id,
                        PeerModel { state: StateModel::connected(), ..m.peers[i as int].1 },
                    ),
                decreases total - k,
            {
                let ghost so_far = self@.backlog;
                let ghost left = messages@;
                let message = messages.remove(0);
                let ghost view = message@;
                proof {
                    assert(connection::message_views(left)[0] == view);
                    assert(all[k as int] == view);
                    assert forall|j: int| 0 <= j < messages@.len() implies (
                    #[trigger] connection::message_views(messages@)[j]) == all.skip(
                        k as int + 1,
                    )[j] by {
                        assert(messages@[j] == left[j + 1]);
                        assert(connection::message_views(left)[j + 1] == all.skip(k as int)[j + 1]);
                    }
                    assert(connection::message_views(messages@) =~= all.skip(k as int + 1));
                }
                self.backlog.push(Backlog::Message { peer: id, message });
                proof {
                    assert(self@.backlog =~= so_far.push(f(view)));
                    assert(all.take(k as int + 1).map_values(f) =~= all.take(
                        k as int,
                    ).map_values(f).push(f(view)));
                    assert(self@.backlog =~= start + all.take(k as int + 1).map_values(f));
                }
                k += 1;
            }
            proof {
                assert(all.take(k as int) =~= all);
                assert(self@.backlog =~= m.backlog + model::backlog_of(id, m.peers[i as int].1));
            }
        } else {
            assert(self@.backlog =~= m.backlog + Seq::<BacklogModel>::empty());
        }
    }

    /// Starts the transfer with the pieces that the saved state marks, or with
    /// none. The connected peers join it one by one with [`Torrent::resume`].
    pub fn start_transfer(&mut self, metadata: Metadata, saved: Option<Vec<u8>>)
        requires
            old(self).wf(),
            metadata.wf(),
            saved matches Some(bytes) ==> bytes@.len() == bitfield::bytes_for(
                metadata.num_pieces as int,
            ),
        ensures
            final(self).wf(),
            final(self)@ == old(self)@.start(metadata, saved_pieces(metadata, saved)),
            same_rest(*final(self), *old(self)),
    {
        let ghost m = self@;
        let ghost have = saved_pieces(metadata, saved);
        let ghost want = m.start(metadata, have).peers;
        self.backlog = Vec::new();
        assert(self@.backlog =~= Seq::empty());
        let n = self.peers.entries.len();
        let mut i: usize = 0;
        while i < n
            invariant
                i <= n,
                n == self.peers@.len(),
                m == old(self)@,
                n == m.peers.len(),
                want == m.start(metadata, have).peers,
                self.wf(),
                self@.backlog == model::backlog_upto(m.peers, i as nat),
                *self == (Torrent { peers: self.peers, backlog: self.backlog, ..*old(self) }),
                forall|j: int|
                    0 <= j < n ==> #[trigger] self@.peers[j] == if j < i {
                        want[j]
                    } else {
                        m.peers[j]
                    },
            decreases n - i,
        {
            self.queue_backlog(i);
            assert(self@.peers.len() == self.peers@.len());
            i += 1;
        }
        assert(self@.peers =~= want);
        let transfer = Transfer::new(metadata, saved);
        self.transfer = Some(transfer);
        assert(self@ =~= m.start(metadata, have));
    }

    /// Whether nothing is left to do.
    pub fn is_settled(&self) -> (r: bool)
        ensures
            r == (self@.backlog.len() == 0),
    {
        self.backlog.len() == 0
    }

    /// Whether the transfer's counters can take the first thing that is left to
    /// do.
    pub fn has_room_to_resume(&self) -> (r: bool)
        requires
            self@.backlog.len() > 0,
        ensures
            r ==> (self@.backlog[0] matches BacklogModel::Message { message, .. }
                ==> self@.transfer matches Some(t) ==> t.room(transfer::model::weight(message))),
            !r ==> (self@.backlog[0] matches BacklogModel::Message { message, .. }
                && self@.transfer matches Some(t) && (!t.room(transfer::model::weight(message))
                || transfer::model::weight(message) > usize::MAX)),
    {
        assert(self@.backlog[0] == self.backlog@[0]@);
        match (&self.backlog[0], &self.transfer) {
            (Backlog::Message { message, .. }, Some(transfer)) => transfer.has_room(message),
            _ => true,
        }
    }

    /// Does the first thing that is left to do.
    pub fn resume(&mut self, now: u64) -> (r: Result<Pending, TransferError>)
        requires
            old(self).wf(),
            old(self)@.transfer is Some,
            old(self)@.backlog.len() > 0,
            old(self)@.backlog[0] matches BacklogModel::Message { message, .. } ==> (old(
                self,
            )@.transfer->0).room(transfer::model::weight(message)),
        ensures
            final(self).wf(),
            match r {
                Ok(pending) => old(self)@.resume(now) == Ok::<_, TransferError>(
                    (final(self)@, pending@),
                ),
                Err(e) => old(self)@.resume(now) == Err::<(TorrentModel, PendingModel), _>(e)
                    && final(self)@ == old(self)@.skip_backlog(),
            },
            final(self).metainfo == old(self).metainfo,
            final(self).progress.trackers == old(self).progress.trackers,
            match old(self)@.backlog[0] {
                BacklogModel::Message { message, .. } => shows_message(
                    old(self)@.transfer,
                    message,
                    old(self).progress.transfer,
                    final(self).progress.transfer,
                ),
                _ => final(self).progress.transfer == old(self).progress.transfer,
            },
    {
        let ghost m = self@;
        assert(m.backlog[0] == self.backlog@[0]@);
        let first = self.backlog.remove(0);
        assert(self@.backlog =~= m.backlog.drop_first());
        if let Some(transfer) = &mut self.transfer {
            match first {
                Backlog::Connect { peer, supports_fast } => {
                    transfer.add_connection(peer, supports_fast);
                    Ok(Pending::Nothing)
                },
                Backlog::Message { peer, message } => transfer.handle_event(
                    &peer,
                    message,
                    now,
                    &mut self.progress,
                ),
            }
        } else {
            Ok(Pending::Nothing)
        }
    }

    /// Goes on after a piece was read for a request.
    pub fn finish_read(
        &mut self,
        peer: &PeerId,
        index: usize,
        begin: usize,
        length: usize,
        piece: Vec<u8>,
        now: u64,
    )
        requires
            old(self).wf(),
            old(self)@.transfer matches Some(t) && t.room(length as nat) && index
                < t.metadata.num_pieces && begin + length <= t.metadata.piece_len(index as int)
                && piece@.len() == t.metadata.piece_len(index as int),
        ensures
            final(self).wf(),
            final(self)@ == (TorrentModel {
                transfer: Some(
                    (old(self)@.transfer->0).finish_read(*peer, index, begin, length, piece@, now),
                ),
                ..old(self)@
            }),
            same_rest(*final(self), *old(self)),
    {
        if let Some(transfer) = &mut self.transfer {
            transfer.finish_read(peer, index, begin, length, piece, now);
        }
    }

    /// Goes on after a piece was written.
    pub fn finish_write(&mut self, index: usize, now: u64)
        requires
            old(self).wf(),
            old(self)@.transfer matches Some(t) && index < t.metadata.num_pieces
                && !t.bits()[index as int] && t.pieces[index as int].complete()
                && t.pieces[index as int].written,
        ensures
            final(self).wf(),
            final(self)@ == (TorrentModel {
                transfer: Some((old(self)@.transfer->0).finish_write(index, now)),
                ..old(self)@
            }),
            same_rest(*final(self), *old(self)),
    {
        if let Some(transfer) = &mut self.transfer {
            transfer.finish_write(index, now);
        }
    }

    /// Takes out the connections that are to be made.
    pub fn take_connects(&mut self) -> (r: Vec<(PeerInfo, Option<PeerId>)>)
        ensures
            final(self)@ == (TorrentModel { connects: Seq::empty(), ..old(self)@ }),
            *final(self) == (Torrent { connects: final(self).connects, ..*old(self) }),
            connect_views(r@) == old(self)@.connects,
    {
        let mut r: Vec<(PeerInfo, Option<PeerId>)> = Vec::new();
        r.append(&mut self.connects);
        proof {
            assert(connect_views(r@) =~= old(self)@.connects);
            assert(self@.connects =~= Seq::empty());
            assert(self@ =~= TorrentModel { connects: Seq::empty(), ..old(self)@ });
        }
        r
    }

    /// Takes out the messages that are queued: those of the metadata extension,
    /// then those of the transfer.
    pub fn take_outboxes(&mut self) -> (r: Vec<(PeerId, Vec<Message>)>)
        requires
            old(self).wf(),
        ensures
            final(self).wf(),
            final(self)@ == (TorrentModel {
                peers: old(self)@.peers.map_values(
                    |e: (PeerId, PeerModel)| (e.0, PeerModel { outbox: Seq::empty(), ..e.1 }),
                ),
                transfer: emptied(old(self)@.transfer),
                ..old(self)@
            }),
            same_rest(*final(self), *old(self)),
            outbox_views(r@) == peer_outboxes(old(self)@.peers) + transfer_outboxes(
                old(self)@.transfer,
            ),
    {
        let ghost m = self@;
        let ghost want = m.peers.map_values(
            |e: (PeerId, PeerModel)| (e.0, PeerModel { outbox: Seq::empty(), ..e.1 }),
        );
        let mut r: Vec<(PeerId, Vec<Message>)> = Vec::new();
        let n = self.peers.entries.len();
        let mut i: usize = 0;
        while i < n
            invariant
                i <= n,
                n == self.peers@.len(),
                m == old(self)@,
                n == m.peers.len(),
                want == m.peers.map_values(
                    |e: (PeerId, PeerModel)| (e.0, PeerModel { outbox: Seq::empty(), ..e.1 }),
                ),
                *self == (Torrent { peers: self.peers, ..*old(self) }),
                r@.len() == i,
                forall|j: int|
                    0 <= j < i ==> (#[trigger] r@[j]).0 == m.peers[j].0
                        && connection::message_views(r@[j].1@) == m.peers[j].1.outbox,
                forall|j: int|
                    0 <= j < n ==> #[trigger] self@.peers[j] == if j < i {
                        want[j]
                    } else {
                        m.peers[j]
                    },
            decreases n - i,
        {
            let ghost before = self.peers@;
            assert(self@.peers[i as int] == (before[i as int].0, before[i as int].1@));
            let id = self.peers.entries[i].0;
            let messages = self.peers.entries[i].1.take_outbox();
            proof {
                assert(self.peers@ =~= before.update(i as int, (id, self.peers@[i as int].1)));
                assert(self@.peers =~= peer_views(before).update(i as int, want[i as int]));
            }
            r.push((id, messages));
            i += 1;
        }
        proof {
            assert(self@.peers =~= want);
            assoc::lemma_same_keys(m.peers, want);
            assert(outbox_views(r@) =~= peer_outboxes(m.peers));
        }
        if self.transfer.is_some() {
            if let Some(transfer) = &mut self.transfer {
                let mut more = transfer.take_outboxes();
                let ghost first = r@;
                let ghost second = more@;
                r.append(&mut more);
                proof {
                    assert(outbox_views(second) =~= transfer_outboxes(m.transfer));
                    assert(outbox_views(r@) =~= outbox_views(first) + outbox_views(second));
                }
            }
        } else {
            assert(outbox_views(r@) =~= peer_outboxes(m.peers) + transfer_outboxes(m.transfer));
        }
        r
    }
}

} // verus!
