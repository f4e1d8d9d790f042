//! The torrent as a mathematical object: every operation as a function from
//! state to state.

use crate::assoc;
use crate::metainfo;
use crate::metainfo::{InfoModel, Metadata};
use crate::proto::bit_torrent::MessageModel;
use crate::proto::metadata::MetadataModel;
use crate::torrent::control::{PeerProgressView, ProgressView};
use crate::torrent::peer;
use crate::torrent::peer::{PeerModel, StateModel};
use crate::torrent::piece;
use crate::torrent::piece::PieceModel;
use crate::torrent::transfer;
use crate::torrent::transfer::model::{PendingModel, TransferError, TransferModel};
use crate::types;
use crate::types::{PeerId, PeerInfoView, Sha1Hash};
use vstd::prelude::*;

verus! {

/// The size of a block of metadata, in bytes.
pub const METADATA_BLOCK_SIZE: usize = 16_384;

/// How often a peer is tried before it is given up.
pub const MAX_DISCOVERY_ATTEMPTS: usize = 3;

/// How a peer came to be known.
#[derive(Clone, Copy, Debug, PartialEq, Eq, Structural)]
pub enum DiscoveryMechanism {
    Tracker,
    PEX,
    DHT,
}

/// A peer that is being tried.
#[verifier::ext_equal]
pub struct AttemptModel {
    pub info: PeerInfoView,
    pub num_attempts: nat,
    pub mechanism: DiscoveryMechanism,
}

/// What is left to do once a transfer has started.
#[verifier::ext_equal]
pub enum BacklogModel {
    Connect { peer: PeerId, supports_fast: bool },
    Message { peer: PeerId, message: MessageModel },
}

/// Something that happened.
#[verifier::ext_equal]
pub enum EventModel {
    Message(PeerId, MessageModel),
    Connection {
        id: PeerId,
        supports_fast: bool,
        supports_dht: bool,
        info: PeerInfoView,
        known_id: Option<PeerId>,
    },
    ConnectionFailure(PeerInfoView, Option<PeerId>),
    Disconnection(PeerId, Seq<char>),
    Tracker(Seq<PeerInfoView>),
}

/// What has to be done before the torrent can go on.
#[verifier::ext_equal]
pub enum ActionModel {
    Nothing,
    Disk(PendingModel),
    Load(InfoModel),
}

/// Why a torrent cannot go on.
#[verifier::ext_equal]
pub enum ErrorModel {
    Transfer(TransferError),
    Metadata(Seq<char>),
}

/// A torrent's contents.
#[verifier::ext_equal]
pub struct TorrentModel {
    pub client_id: PeerId,
    pub info_hash: Sha1Hash,
    pub peers: Seq<(PeerId, PeerModel)>,
    pub attempts: Seq<AttemptModel>,
    pub transfer: Option<TransferModel>,
    pub metadata: PieceModel,
    /// The connections that are to be made.
    pub connects: Seq<(PeerInfoView, Option<PeerId>)>,
    pub backlog: Seq<BacklogModel>,
    pub shown: ProgressView,
}

/// Some peer is the same as `info`.
pub open spec fn knows(peers: Seq<(PeerId, PeerModel)>, info: PeerInfoView) -> bool {
    exists|i: int| 0 <= i < peers.len() && types::same_peer((#[trigger] peers[i]).1.info, info)
}

/// The first peer from `i` on that is the same as `info`, or the end of the list.
pub open spec fn first_known(peers: Seq<(PeerId, PeerModel)>, info: PeerInfoView, i: int) -> int
    decreases peers.len() - i,
{
    if i < 0 || i >= peers.len() {
        peers.len() as int
    } else if types::same_peer(peers[i].1.info, info) {
        i
    } else {
        first_known(peers, info, i + 1)
    }
}

/// The first attempt from `i` on at the same peer as `info`, or the end of the
/// list.
pub open spec fn first_attempt(attempts: Seq<AttemptModel>, info: PeerInfoView, i: int) -> int
    decreases attempts.len() - i,
{
    if i < 0 || i >= attempts.len() {
        attempts.len() as int
    } else if types::same_peer(attempts[i].info, info) {
        i
    } else {
        first_attempt(attempts, info, i + 1)
    }
}

/// The attempts without those at exactly `info`.
pub open spec fn without(attempts: Seq<AttemptModel>, info: PeerInfoView) -> Seq<AttemptModel>
    decreases attempts.len(),
{
    if attempts.len() == 0 {
        Seq::empty()
    } else {
        let before = without(attempts.drop_last(), info);
        if attempts.last().info != info {
            before.push(attempts.last())
        } else {
            before
        }
    }
}

/// How many attempts there are at peers that came to be known this way.
pub open spec fn count_mechanism(attempts: Seq<AttemptModel>, mechanism: DiscoveryMechanism) -> nat
    decreases attempts.len(),
{
    if attempts.len() == 0 {
        0
    } else {
        count_mechanism(attempts.drop_last(), mechanism) + if attempts.last().mechanism
            == mechanism {
            1nat
        } else {
            0nat
        }
    }
}

/// How many peers are connected.
pub open spec fn count_connected(peers: Seq<(PeerId, PeerModel)>) -> nat
    decreases peers.len(),
{
    if peers.len() == 0 {
        0
    } else {
        count_connected(peers.drop_last()) + if peers.last().1.state is Connected {
            1nat
        } else {
            0nat
        }
    }
}

/// The blocks of metadata that were sent this second.
pub open spec fn sum_uploaded(peers: Seq<(PeerId, PeerModel)>) -> nat
    decreases peers.len(),
{
    if peers.len() == 0 {
        0
    } else {
        sum_uploaded(peers.drop_last()) + peers.last().1.uploaded_metadata
    }
}

/// The blocks of metadata that came this second.
pub open spec fn sum_downloaded(peers: Seq<(PeerId, PeerModel)>) -> nat
    decreases peers.len(),
{
    if peers.len() == 0 {
        0
    } else {
        sum_downloaded(peers.drop_last()) + peers.last().1.downloaded_metadata
    }
}

/// What is shown of a peer.
pub open spec fn shown_peer(
    id: PeerId,
    p: PeerModel,
    before: Option<PeerProgressView>,
) -> PeerProgressView {
    PeerProgressView {
        id,
        endpoints: p.info.endpoints,
        errors: p.errors,
        client: p.client,
        supports_fast: p.supports_fast,
        supports_pex: p.supports_pex,
        supports_metadata: p.supports_metadata,
        supports_dht: p.supports_dht,
        connection: match before {
            Some(b) => b.connection,
            None => None,
        },
    }
}

/// What is shown of the peers once the first `n` are shown as they are now.
pub open spec fn shown_upto(
    shown: Seq<(PeerId, PeerProgressView)>,
    peers: Seq<(PeerId, PeerModel)>,
    n: nat,
) -> Seq<(PeerId, PeerProgressView)>
    decreases n,
{
    if n == 0 {
        shown
    } else {
        let before = shown_upto(shown, peers, (n - 1) as nat);
        let (id, p) = peers[n - 1];
        assoc::inserted(before, id, shown_peer(id, p, assoc::lookup(before, id)))
    }
}

/// What is shown of the peers once a second of the transfer is over.
pub open spec fn shown_connections(
    shown: Seq<(PeerId, PeerProgressView)>,
    m: TransferModel,
) -> Seq<(PeerId, PeerProgressView)> {
    shown.map_values(
        |e: (PeerId, PeerProgressView)|
            if assoc::has_key(m.connections, e.0) {
                (
                    e.0,
                    PeerProgressView {
                        connection: Some(
                            transfer::model::connection_view(
                                m.connections[assoc::index_of(m.connections, e.0)].1,
                            ),
                        ),
                        ..e.1
                    },
                )
            } else {
                e
            },
    )
}

/// The peers that it is time to reconnect to among the first `n`.
pub open spec fn due_upto(peers: Seq<(PeerId, PeerModel)>, n: nat, now: u64) -> Seq<
    (PeerInfoView, Option<PeerId>),
>
    decreases n,
{
    if n == 0 {
        Seq::empty()
    } else {
        let before = due_upto(peers, (n - 1) as nat, now);
        let p = peers[n - 1].1;
        if p.state.is_due(now) {
            before.push((p.info, p.info.id))
        } else {
            before
        }
    }
}

/// What is left to do for a peer once a transfer has started: if it is connected
/// it joins, with the messages that it has sent.
pub open spec fn backlog_of(id: PeerId, p: PeerModel) -> Seq<BacklogModel> {
    match p.state {
        StateModel::Connected { initial_transfer_messages } => seq![
            BacklogModel::Connect { peer: id, supports_fast: p.supports_fast },
        ] + initial_transfer_messages.map_values(
            |m: MessageModel| BacklogModel::Message { peer: id, message: m },
        ),
        StateModel::Disconnected { .. } => Seq::empty(),
    }
}

/// What is left to do for the first `n` peers once a transfer has started.
pub open spec fn backlog_upto(peers: Seq<(PeerId, PeerModel)>, n: nat) -> Seq<BacklogModel>
    decreases n,
{
    if n == 0 {
        Seq::empty()
    } else {
        backlog_upto(peers, (n - 1) as nat) + backlog_of(peers[n - 1].0, peers[n - 1].1)
    }
}

/// The peers after each late peer's timeout was counted.
pub open spec fn timed_out(peers: Seq<(PeerId, PeerModel)>, late: Seq<PeerId>) -> Seq<
    (PeerId, PeerModel),
>
    decreases late.len(),
{
    if late.len() == 0 {
        peers
    } else {
        assoc::changed(
            timed_out(peers, late.drop_last()),
            late.last(),
            |p: PeerModel| p.sub_sent(1),
        )
    }
}

/// The transfer is what a message is for.
pub open spec fn is_transfer_message(message: MessageModel) -> bool {
    !(message is Metadata || message is KeepAlive || message is ExtensionHandshake
        || message is PEX || message is DHTPort || message is Unsupported
        || message is UnsupportedExtension)
}

impl TorrentModel {
    /// Peers and what is shown of them have one entry each, and the metadata is
    /// in blocks of the usual size.
    pub open spec fn wf(self) -> bool {
        &&& assoc::distinct_keys(self.peers)
        &&& assoc::distinct_keys(self.shown.peers)
        &&& self.metadata.wf()
        &&& self.metadata.block_size == METADATA_BLOCK_SIZE
        &&& self.transfer matches Some(t) ==> t.wf()
    }

    pub open spec fn with_peer(self, id: PeerId, f: spec_fn(PeerModel) -> PeerModel) -> TorrentModel {
        TorrentModel { peers: assoc::changed(self.peers, id, f), ..self }
    }

    pub open spec fn try_connect(self, info: PeerInfoView, known_id: Option<PeerId>) -> TorrentModel {
        TorrentModel { connects: self.connects.push((info, known_id)), ..self }
    }

    /// A peer heard of. One that is known already is left alone; any other is
    /// tried, but not too often.
    pub open spec fn discover(self, info: PeerInfoView, mechanism: DiscoveryMechanism) -> TorrentModel {
        if knows(self.peers, info) {
            self
        } else {
            let k = first_attempt(self.attempts, info, 0);
            if k >= self.attempts.len() {
                (TorrentModel {
                    attempts: self.attempts.push(
                        AttemptModel { info, num_attempts: 1, mechanism },
                    ),
                    ..self
                }).try_connect(info, None)
            } else if self.attempts[k].num_attempts < MAX_DISCOVERY_ATTEMPTS {
                (TorrentModel {
                    attempts: self.attempts.update(
                        k,
                        AttemptModel {
                            num_attempts: self.attempts[k].num_attempts + 1,
                            ..self.attempts[k]
                        },
                    ),
                    ..self
                }).try_connect(info, None)
            } else {
                TorrentModel { attempts: without(self.attempts, info), ..self }
            }
        }
    }

    /// Peers heard of, one after the other.
    pub open spec fn discover_all(
        self,
        infos: Seq<PeerInfoView>,
        mechanism: DiscoveryMechanism,
    ) -> TorrentModel
        decreases infos.len(),
    {
        if infos.len() == 0 {
            self
        } else {
            self.discover_all(infos.drop_last(), mechanism).discover(infos.last(), mechanism)
        }
    }

    /// A block of metadata asked of peer `i`.
    pub open spec fn request_metadata(self, i: int, block: usize, now: u64) -> TorrentModel {
        let (id, p) = self.peers[i];
        TorrentModel {
            peers: self.peers.update(i, (id, p.request_metadata(block))),
            metadata: self.metadata.download(block as int, id, now),
            ..self
        }
    }

    /// Metadata asked of peer `i` until no more may be out or there is nothing to
    /// ask of it.
    pub open spec fn dispatch_one(self, i: int, now: u64) -> TorrentModel
        decreases
            (if 0 <= i < self.peers.len() {
                peer::MAX_METADATA_REQUESTS - self.peers[i].1.sent_metadata_requests
            } else {
                0
            }),
    {
        if i < 0 || i >= self.peers.len() || !self.peers[i].1.can_request_metadata() {
            self
        } else {
            match self.metadata.first_free(self.peers[i].0) {
                None => self,
                Some(block) => self.request_metadata(i, block, now).dispatch_one(i, now),
            }
        }
    }

    /// Metadata asked of the first `n` peers.
    pub open spec fn dispatch_upto(self, n: nat, now: u64) -> TorrentModel
        decreases n,
    {
        if n == 0 {
            self
        } else {
            self.dispatch_upto((n - 1) as nat, now).dispatch_one(n - 1, now)
        }
    }

    /// Metadata asked of all peers.
    pub open spec fn dispatch(self, now: u64) -> TorrentModel {
        self.dispatch_upto(self.peers.len(), now)
    }

    /// What is shown of the metadata brought up to date.
    pub open spec fn show_metadata(self) -> TorrentModel {
        TorrentModel {
            shown: ProgressView { metadata_bits: self.metadata.bits(), ..self.shown },
            ..self
        }
    }

    /// A block of metadata counted and placed.
    pub open spec fn place_metadata(self, index: usize, piece: Seq<u8>, peer: PeerId) -> TorrentModel {
        let who = self.metadata.asked(index as int);
        let counted = self.with_peer(peer, |p: PeerModel| p.receive_metadata(who == Some(peer)));
        let answered = if who is Some && who != Some(peer) {
            counted.with_peer(who->0, |p: PeerModel| p.sub_sent(1))
        } else {
            counted
        };
        TorrentModel { metadata: self.metadata.place(index as int, piece, false).0, ..answered }
    }

    /// A block of metadata come in: counted, placed, and the metadata read where
    /// the block completes it.
    pub open spec fn receive_metadata(
        self,
        index: usize,
        piece: Seq<u8>,
        peer: PeerId,
        now: u64,
    ) -> Result<(TorrentModel, ActionModel), ErrorModel> {
        let next = self.place_metadata(index, piece, peer);
        match self.metadata.place(index as int, piece, false).1 {
            None => Ok((next.dispatch(now).show_metadata(), ActionModel::Nothing)),
            Some(bytes) => match metainfo::parse_info(bytes) {
                Ok(info) => Ok((next.show_metadata(), ActionModel::Load(info))),
                Err(e) => Err(ErrorModel::Metadata("Error parsing metadata: "@ + e)),
            },
        }
    }

    /// A message of the metadata extension.
    pub open spec fn handle_metadata(self, message: MetadataModel, peer: PeerId, now: u64) -> Result<
        (TorrentModel, ActionModel),
        ErrorModel,
    > {
        match message {
            MetadataModel::Request { index } => Ok(
                (
                    if self.metadata.blocks.len() == 0 {
                        self
                    } else {
                        match self.metadata.block_data(index as int) {
                            Some(bytes) => self.with_peer(
                                peer,
                                |p: PeerModel|
                                    p.send_metadata(
                                        index,
                                        self.metadata.blocks.len() as usize,
                                        bytes,
                                    ),
                            ),
                            None => self.with_peer(
                                peer,
                                |p: PeerModel| p.send_metadata_reject(index),
                            ),
                        }
                    },
                    ActionModel::Nothing,
                ),
            ),
            MetadataModel::Data { index, piece, .. } => if self.transfer is Some
                || self.metadata.obtained(index as int) {
                Ok((self, ActionModel::Nothing))
            } else {
                self.receive_metadata(index, piece, peer, now)
            },
            MetadataModel::Reject { index } => Ok(
                (
                    if self.transfer is None && self.metadata.asked(index as int) == Some(peer) {
                        (TorrentModel {
                            metadata: self.metadata.reject(index as int, peer),
                            ..self.with_peer(peer, |p: PeerModel| p.sub_sent(1))
                        }).dispatch(now)
                    } else {
                        self
                    },
                    ActionModel::Nothing,
                ),
            ),
            MetadataModel::Unsupported { .. } => Ok((self, ActionModel::Nothing)),
        }
    }

    /// The torrent behind a message of the metadata extension that was an error:
    /// a block that completes metadata that cannot be read stays placed.
    pub open spec fn after_metadata_error(self, message: MetadataModel, peer: PeerId) -> TorrentModel {
        match message {
            MetadataModel::Data { index, piece, .. } => self.place_metadata(index, piece, peer),
            _ => self,
        }
    }

    /// What a peer says of itself, and the metadata started over where it is
    /// larger than was thought.
    pub open spec fn handle_extension_handshake(
        self,
        peer: PeerId,
        client: Option<Seq<char>>,
        extensions: Seq<(Seq<char>, u8)>,
        metadata_size: Option<usize>,
        now: u64,
    ) -> TorrentModel {
        let told = self.with_peer(
            peer,
            |p: PeerModel| p.receive_extension_handshake(client, extensions),
        );
        match metadata_size {
            Some(size) if self.transfer is None && size as int / 16_384
                > self.metadata.blocks.len() => (TorrentModel {
                metadata: piece::fresh(
                    self.metadata.index,
                    self.metadata.block_size,
                    size,
                    self.metadata.hash,
                    false,
                ),
                ..told
            }).dispatch(now),
            _ => told,
        }
    }

    /// A message that is for the transfer: kept where there is none yet.
    pub open spec fn pass_on(self, peer: PeerId, message: MessageModel, now: u64) -> Result<
        (TorrentModel, ActionModel),
        ErrorModel,
    > {
        match self.transfer {
            None => Ok(
                (
                    self.with_peer(peer, |p: PeerModel| p.queue(message)),
                    ActionModel::Nothing,
                ),
            ),
            Some(t) => match t.handle(peer, message, now) {
                Ok((t, pending)) => Ok(
                    (TorrentModel { transfer: Some(t), ..self }, ActionModel::Disk(pending)),
                ),
                Err(e) => Err(ErrorModel::Transfer(e)),
            },
        }
    }

    /// A message from a peer. One from a peer that is not known is dropped.
    pub open spec fn handle_message(self, peer: PeerId, message: MessageModel, now: u64) -> Result<
        (TorrentModel, ActionModel),
        ErrorModel,
    > {
        if !assoc::has_key(self.peers, peer) {
            Ok((self, ActionModel::Nothing))
        } else {
            match message {
                MessageModel::Metadata(message) => self.handle_metadata(message, peer, now),
                MessageModel::ExtensionHandshake { extensions, client, metadata_size, .. } => Ok(
                    (
                        self.handle_extension_handshake(
                            peer,
                            client,
                            extensions,
                            metadata_size,
                            now,
                        ),
                        ActionModel::Nothing,
                    ),
                ),
                MessageModel::PEX(pex) => Ok(
                    (self.discover_all(pex.added, DiscoveryMechanism::PEX), ActionModel::Nothing),
                ),
                _ => if is_transfer_message(message) {
                    self.pass_on(peer, message, now)
                } else {
                    Ok((self, ActionModel::Nothing))
                },
            }
        }
    }

    /// A connection made to a peer: to one that was known, or to a new one.
    pub open spec fn handle_connection(
        self,
        id: PeerId,
        supports_fast: bool,
        supports_dht: bool,
        info: PeerInfoView,
        known_id: Option<PeerId>,
    ) -> TorrentModel {
        let found = PeerInfoView { id: Some(id), ..info };
        let (joined, joining) = match known_id {
            Some(known) => (
                self.with_peer(
                    known,
                    |p: PeerModel| PeerModel { state: StateModel::connected(), ..p },
                ),
                info.id->0,
            ),
            None => {
                let k = first_known(self.peers, found, 0);
                (
                    TorrentModel {
                        attempts: without(self.attempts, info),
                        peers: if k < self.peers.len() {
                            let (at, p) = self.peers[k];
                            self.peers.update(
                                k,
                                (at, PeerModel { info: types::merged(p.info, found), ..p }),
                            )
                        } else {
                            assoc::inserted(
                                self.peers,
                                id,
                                peer::fresh(found, supports_fast, supports_dht),
                            )
                        },
                        ..self
                    },
                    id,
                )
            },
        };
        TorrentModel {
            transfer: match joined.transfer {
                Some(t) => Some(t.add_connection(joining, supports_fast)),
                None => None,
            },
            ..joined
        }
    }

    /// The torrent behind a message that was an error: what a transfer refuses
    /// changes nothing.
    pub open spec fn after_message_error(self, peer: PeerId, message: MessageModel) -> TorrentModel {
        match message {
            MessageModel::Metadata(message) => self.after_metadata_error(message, peer),
            _ => self,
        }
    }

    /// A connection to a peer lost.
    pub open spec fn handle_disconnection(self, peer: PeerId, error: Seq<char>, now: u64) -> TorrentModel {
        let severed = match self.transfer {
            Some(t) => TorrentModel {
                transfer: Some(t.sever(peer)),
                shown: ProgressView {
                    peers: assoc::changed(
                        self.shown.peers,
                        peer,
                        |p: PeerProgressView| PeerProgressView { connection: None, ..p },
                    ),
                    ..self.shown
                },
                ..self
            },
            None => self,
        };
        severed.with_peer(peer, |p: PeerModel| p.disconnect(error, now))
    }

    /// What is shown of the peers brought up to date.
    pub open spec fn update_progress(self) -> TorrentModel {
        TorrentModel {
            shown: ProgressView {
                num_peers: self.peers.len(),
                num_connected_peers: count_connected(self.peers),
                num_discovery_attempts: self.attempts.len(),
                peers: shown_upto(self.shown.peers, self.peers, self.peers.len()),
                ..self.shown
            },
            ..self
        }
    }

    /// What an event does, but for what is shown of the peers.
    pub open spec fn step(self, event: EventModel, now: u64) -> Result<
        (TorrentModel, ActionModel),
        ErrorModel,
    > {
        match event {
            EventModel::Message(peer, message) => self.handle_message(peer, message, now),
            EventModel::Connection { id, supports_fast, supports_dht, info, known_id } => Ok(
                (
                    self.handle_connection(id, supports_fast, supports_dht, info, known_id),
                    ActionModel::Nothing,
                ),
            ),
            EventModel::ConnectionFailure(info, known_id) => {
                let tried = self.discover(info, DiscoveryMechanism::Tracker);
                Ok(
                    (
                        match known_id {
                            Some(id) => tried.with_peer(
                                id,
                                |p: PeerModel| PeerModel { state: p.state.back_off(now), ..p },
                            ),
                            None => tried,
                        },
                        ActionModel::Nothing,
                    ),
                )
            },
            EventModel::Disconnection(peer, error) => Ok(
                (self.handle_disconnection(peer, error, now), ActionModel::Nothing),
            ),
            EventModel::Tracker(infos) => Ok(
                (self.discover_all(infos, DiscoveryMechanism::Tracker), ActionModel::Nothing),
            ),
        }
    }

    /// What an event does.
    pub open spec fn handle(self, event: EventModel, now: u64) -> Result<
        (TorrentModel, ActionModel),
        ErrorModel,
    > {
        match self.step(event, now) {
            Ok((m, action)) => Ok((m.update_progress(), action)),
            Err(e) => Err(e),
        }
    }

    /// The torrent behind an event that was an error. What is shown of the peers
    /// is not brought up to date.
    pub open spec fn after_error(self, event: EventModel) -> TorrentModel {
        match event {
            EventModel::Message(peer, message) => self.after_message_error(peer, message),
            _ => self,
        }
    }

    /// An event that can come: a peer that failed is known, and one that comes
    /// back to a transfer says who it is.
    pub open spec fn expects(self, event: EventModel) -> bool {
        match event {
            EventModel::Message(_, message) => self.transfer matches Some(t) ==> t.room(
                transfer::model::weight(message),
            ),
            EventModel::Connection { info, known_id, .. } => known_id is Some && self.transfer is Some
                ==> info.id is Some,
            EventModel::ConnectionFailure(_, known_id) => known_id matches Some(id)
                ==> assoc::has_key(self.peers, id),
            _ => true,
        }
    }

    /// The metadata's late requests given up and counted, and metadata asked for
    /// again.
    pub open spec fn expire_metadata(self, now: u64) -> TorrentModel {
        (TorrentModel {
            metadata: self.metadata.expire(now),
            peers: timed_out(self.peers, piece::late_peers(self.metadata.blocks, now)),
            ..self
        }).dispatch(now)
    }

    /// Reconnections begun to the peers that it is time for.
    pub open spec fn reconnect(self, now: u64) -> TorrentModel {
        TorrentModel {
            peers: self.peers.map_values(
                |e: (PeerId, PeerModel)|
                    if e.1.state.is_due(now) {
                        (e.0, PeerModel { state: e.1.state.reconnecting(), ..e.1 })
                    } else {
                        e
                    },
            ),
            connects: self.connects + due_upto(self.peers, self.peers.len(), now),
            ..self
        }
    }

    /// The second's metadata traffic shown, and the counters started over.
    pub open spec fn statistics(self) -> TorrentModel {
        TorrentModel {
            peers: self.peers.map_values(
                |e: (PeerId, PeerModel)| (e.0, e.1.reset_statistics()),
            ),
            shown: ProgressView {
                metadata_down_speed: METADATA_BLOCK_SIZE as nat * sum_downloaded(self.peers),
                metadata_up_speed: METADATA_BLOCK_SIZE as nat * sum_uploaded(self.peers),
                ..self.shown
            },
            ..self
        }
    }

    /// The transfer's second, if there is a transfer.
    pub open spec fn tick_transfer(self, now: u64) -> TorrentModel {
        match self.transfer {
            None => self,
            Some(t) => TorrentModel {
                transfer: Some(t.tick(now)),
                shown: ProgressView {
                    peers: shown_connections(
                        self.shown.peers,
                        t.expire_upto(t.pieces.len(), now),
                    ),
                    ..self.shown
                },
                ..self
            },
        }
    }

    /// What happens once a second.
    pub open spec fn tick(self, now: u64) -> TorrentModel {
        let asked = if self.transfer is None {
            self.expire_metadata(now)
        } else {
            self
        };
        asked.reconnect(now).statistics().tick_transfer(now)
    }

    /// The counters can take a tick.
    pub open spec fn room_for_tick(self) -> bool {
        &&& METADATA_BLOCK_SIZE * sum_downloaded(self.peers) <= usize::MAX
        &&& METADATA_BLOCK_SIZE * sum_uploaded(self.peers) <= usize::MAX
        &&& self.transfer matches Some(t) ==> t.room_for_tick()
    }

    /// A transfer started with the pieces that `have` marks. The connected peers
    /// have still to join it.
    pub open spec fn start(self, metadata: Metadata, have: Seq<u8>) -> TorrentModel {
        TorrentModel {
            transfer: Some(transfer::started(metadata, have)),
            backlog: backlog_upto(self.peers, self.peers.len()),
            peers: self.peers.map_values(
                |e: (PeerId, PeerModel)|
                    if e.1.state is Connected {
                        (e.0, PeerModel { state: StateModel::connected(), ..e.1 })
                    } else {
                        e
                    },
            ),
            ..self
        }
    }

    /// The first thing that is left to do dropped.
    pub open spec fn skip_backlog(self) -> TorrentModel {
        TorrentModel { backlog: self.backlog.drop_first(), ..self }
    }

    /// The first thing that is left to do done.
    pub open spec fn resume(self, now: u64) -> Result<(TorrentModel, PendingModel), TransferError> {
        let rest = self.skip_backlog();
        match self.backlog[0] {
            BacklogModel::Connect { peer, supports_fast } => Ok(
                (
                    TorrentModel {
                        transfer: Some(self.transfer->0.add_connection(peer, supports_fast)),
                        ..rest
                    },
                    PendingModel::Nothing,
                ),
            ),
            BacklogModel::Message { peer, message } => match self.transfer->0.handle(
                peer,
                message,
                now,
            ) {
                Ok((t, pending)) => Ok((TorrentModel { transfer: Some(t), ..rest }, pending)),
                Err(e) => Err(e),
            },
        }
    }
}

} // verus!
