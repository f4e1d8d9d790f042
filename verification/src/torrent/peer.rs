//! A peer of a torrent: whether it is connected, what it can do, and the
//! metadata that is exchanged with it.

use crate::assoc;
use crate::proto::bit_torrent;
use crate::proto::bit_torrent::{Message, MessageModel};
use crate::proto::metadata::{MetadataMessage, MetadataModel};
use crate::str_map::StrMap;
use crate::text;
use crate::torrent::transfer::connection;
use crate::types::{PeerInfo, PeerInfoView};
use vstd::prelude::*;

verus! {

/// How many blocks of metadata may be asked of a peer at a time.
pub const MAX_METADATA_REQUESTS: usize = 4;

/// How long to wait for the first reconnection, in milliseconds.
pub const RECONNECT_INTERVAL: u64 = 5_000;

/// Whether a peer is connected. One that is keeps the messages that come before
/// the transfer starts. Times are in milliseconds.
#[derive(Debug)]
pub enum PeerState {
    Connected { initial_transfer_messages: Vec<Message> },
    Disconnected { at: u64, interval: u64, reconnecting: bool },
}

/// Whether a peer is connected.
#[verifier::ext_equal]
pub enum StateModel {
    Connected { initial_transfer_messages: Seq<MessageModel> },
    Disconnected { at: u64, interval: u64, reconnecting: bool },
}

impl View for PeerState {
    type V = StateModel;

    open spec fn view(&self) -> StateModel {
        match *self {
            PeerState::Connected { initial_transfer_messages } => StateModel::Connected {
                initial_transfer_messages: connection::message_views(initial_transfer_messages@),
            },
            PeerState::Disconnected { at, interval, reconnecting } => StateModel::Disconnected {
                at,
                interval,
                reconnecting,
            },
        }
    }
}

/// Twice a time, as far as times go.
pub open spec fn doubled(interval: u64) -> u64 {
    if interval > u64::MAX / 2 {
        u64::MAX
    } else {
        (2 * interval) as u64
    }
}

impl StateModel {
    /// A connection that has just been made.
    pub open spec fn connected() -> StateModel {
        StateModel::Connected { initial_transfer_messages: Seq::empty() }
    }

    /// A connection that has just been lost.
    pub open spec fn lost(now: u64) -> StateModel {
        StateModel::Disconnected { at: now, interval: RECONNECT_INTERVAL, reconnecting: false }
    }

    /// After a reconnection that failed: the next one takes twice as long.
    pub open spec fn back_off(self, now: u64) -> StateModel {
        match self {
            StateModel::Disconnected { interval, .. } => StateModel::Disconnected {
                at: now,
                interval: doubled(interval),
                reconnecting: false,
            },
            StateModel::Connected { .. } => self,
        }
    }

    /// It is time for a reconnection.
    pub open spec fn is_due(self, now: u64) -> bool {
        self matches StateModel::Disconnected { at, interval, reconnecting } && now - at > interval
            && !reconnecting
    }

    /// While a reconnection is made.
    pub open spec fn reconnecting(self) -> StateModel {
        match self {
            StateModel::Disconnected { at, interval, .. } => StateModel::Disconnected {
                at,
                interval,
                reconnecting: true,
            },
            StateModel::Connected { .. } => self,
        }
    }
}

/// Each reconnection that fails makes the client wait longer for the next, and
/// none is made while one is under way.
pub proof fn law_back_off(at: u64, interval: u64, now: u64, later: u64)
    requires
        0 < interval < u64::MAX,
    ensures
        ({
            let waiting = StateModel::Disconnected { at, interval, reconnecting: false };
            &&& !waiting.reconnecting().is_due(later)
            &&& waiting.reconnecting().back_off(now) matches StateModel::Disconnected {
                at: since,
                interval: longer,
                reconnecting,
            } && since == now && longer > interval && !reconnecting
            &&& later - now <= interval ==> !waiting.reconnecting().back_off(now).is_due(later)
        }),
{
}

/// A peer. The messages in its outbox are still to be sent.
#[derive(Debug)]
pub struct Peer {
    pub info: PeerInfo,
    pub state: PeerState,
    pub client: Option<String>,
    pub supports_fast: bool,
    pub supports_dht: bool,
    pub supports_pex: bool,
    pub supports_metadata: bool,
    pub sent_metadata_requests: usize,
    pub uploaded_metadata: usize,
    pub downloaded_metadata: usize,
    pub outbox: Vec<Message>,
    pub errors: Vec<String>,
}

/// A peer's contents.
#[verifier::ext_equal]
pub struct PeerModel {
    pub info: PeerInfoView,
    pub state: StateModel,
    pub client: Option<Seq<char>>,
    pub supports_fast: bool,
    pub supports_dht: bool,
    pub supports_pex: bool,
    pub supports_metadata: bool,
    pub sent_metadata_requests: nat,
    pub uploaded_metadata: nat,
    pub downloaded_metadata: nat,
    pub outbox: Seq<MessageModel>,
    pub errors: Seq<Seq<char>>,
}

impl View for Peer {
    type V = PeerModel;

    open spec fn view(&self) -> PeerModel {
        PeerModel {
            info: self.info@,
            state: self.state@,
            client: bit_torrent::text_of(self.client),
            supports_fast: self.supports_fast,
            supports_dht: self.supports_dht,
            supports_pex: self.supports_pex,
            supports_metadata: self.supports_metadata,
            sent_metadata_requests: self.sent_metadata_requests as nat,
            uploaded_metadata: self.uploaded_metadata as nat,
            downloaded_metadata: self.downloaded_metadata as nat,
            outbox: connection::message_views(self.outbox@),
            errors: text::texts(self.errors@),
        }
    }
}

/// One more, as far as counters go.
pub open spec fn counted(n: nat) -> nat {
    if n < usize::MAX {
        n + 1
    } else {
        n
    }
}

/// So many less, but not less than nothing.
pub open spec fn less(n: nat, k: nat) -> nat {
    if n >= k {
        (n - k) as nat
    } else {
        0
    }
}

/// A peer that has just connected.
pub open spec fn fresh(info: PeerInfoView, supports_fast: bool, supports_dht: bool) -> PeerModel {
    PeerModel {
        info,
        state: StateModel::connected(),
        client: None,
        supports_fast,
        supports_dht,
        supports_pex: false,
        supports_metadata: false,
        sent_metadata_requests: 0,
        uploaded_metadata: 0,
        downloaded_metadata: 0,
        outbox: Seq::empty(),
        errors: Seq::empty(),
    }
}

impl PeerModel {
    /// More metadata can be asked of the peer.
    pub open spec fn can_request_metadata(self) -> bool {
        self.state is Connected && self.supports_metadata && self.sent_metadata_requests
            < MAX_METADATA_REQUESTS
    }

    pub open spec fn send(self, message: MetadataModel) -> PeerModel {
        PeerModel { outbox: self.outbox.push(MessageModel::Metadata(message)), ..self }
    }

    /// A block of metadata asked of the peer.
    pub open spec fn request_metadata(self, index: usize) -> PeerModel {
        PeerModel {
            sent_metadata_requests: self.sent_metadata_requests + 1,
            ..self.send(MetadataModel::Request { index })
        }
    }

    /// Requests that are no longer out.
    pub open spec fn sub_sent(self, count: nat) -> PeerModel {
        PeerModel {
            sent_metadata_requests: less(self.sent_metadata_requests, count),
            ..self
        }
    }

    /// A block of metadata come from the peer.
    pub open spec fn receive_metadata(self, requested: bool) -> PeerModel {
        let counted = PeerModel { downloaded_metadata: counted(self.downloaded_metadata), ..self };
        if requested {
            counted.sub_sent(1)
        } else {
            counted
        }
    }

    /// A block of metadata sent to the peer.
    pub open spec fn send_metadata(self, index: usize, total_size: usize, piece: Seq<u8>) -> PeerModel {
        PeerModel {
            uploaded_metadata: counted(self.uploaded_metadata),
            ..self.send(MetadataModel::Data { index, piece, total_size })
        }
    }

    /// A block of metadata refused to the peer.
    pub open spec fn send_metadata_reject(self, index: usize) -> PeerModel {
        self.send(MetadataModel::Reject { index })
    }

    /// What the peer says of itself.
    pub open spec fn receive_extension_handshake(
        self,
        client: Option<Seq<char>>,
        extensions: Seq<(Seq<char>, u8)>,
    ) -> PeerModel {
        PeerModel {
            client,
            supports_pex: assoc::has_key(extensions, "ut_pex"@),
            supports_metadata: assoc::has_key(extensions, "ut_metadata"@),
            ..self
        }
    }

    /// A message kept until the transfer starts.
    pub open spec fn queue(self, message: MessageModel) -> PeerModel {
        match self.state {
            StateModel::Connected { initial_transfer_messages } => PeerModel {
                state: StateModel::Connected {
                    initial_transfer_messages: initial_transfer_messages.push(message),
                },
                ..self
            },
            StateModel::Disconnected { .. } => self,
        }
    }

    /// The connection lost.
    pub open spec fn disconnect(self, error: Seq<char>, now: u64) -> PeerModel {
        PeerModel { state: StateModel::lost(now), errors: self.errors.push(error), ..self }
    }

    /// A second ended.
    pub open spec fn reset_statistics(self) -> PeerModel {
        PeerModel { uploaded_metadata: 0, downloaded_metadata: 0, ..self }
    }
}

impl Peer {
    /// A peer that has just connected.
    pub fn new(info: PeerInfo, supports_fast: bool, supports_dht: bool) -> (r: Peer)
        ensures
            r@ == fresh(info@, supports_fast, supports_dht),
    {
        let r = Peer {
            info,
            state: PeerState::Connected { initial_transfer_messages: Vec::new() },
            client: None,
            supports_fast,
            supports_dht,
            supports_pex: false,
            supports_metadata: false,
            sent_metadata_requests: 0,
            uploaded_metadata: 0,
            downloaded_metadata: 0,
            outbox: Vec::new(),
            errors: Vec::new(),
        };
        proof {
            assert(r@.state =~= StateModel::connected());
            assert(r@.outbox =~= Seq::empty());
            assert(r@.errors =~= Seq::empty());
        }
        r
    }

    /// Whether the peer is connected.
    pub fn is_connected(&self) -> (r: bool)
        ensures
            r == (self@.state is Connected),
    {
        matches!(self.state, PeerState::Connected { .. })
    }

    /// Connects the peer again.
    pub fn reconnect(&mut self)
        ensures
            final(self)@ == (PeerModel { state: StateModel::connected(), ..old(self)@ }),
    {
        self.state = PeerState::Connected { initial_transfer_messages: Vec::new() };
        assert(self@.state =~= StateModel::connected());
    }

    /// Takes note that the connection is lost.
    pub fn disconnect(&mut self, error: String, now: u64)
        ensures
            final(self)@ == old(self)@.disconnect(error@, now),
    {
        self.state = PeerState::Disconnected {
            at: now,
            interval: RECONNECT_INTERVAL,
            reconnecting: false,
        };
        let ghost errors = text::texts(self.errors@);
        let ghost shown = error@;
        self.errors.push(error);
        assert(text::texts(self.errors@) =~= errors.push(shown));
    }

    /// Waits twice as long for the next reconnection.
    pub fn back_off(&mut self, now: u64)
        ensures
            final(self)@ == (PeerModel { state: old(self)@.state.back_off(now), ..old(self)@ }),
    {
        if let PeerState::Disconnected { interval, .. } = self.state {
            let longer = if interval > u64::MAX / 2 {
                u64::MAX
            } else {
                2 * interval
            };
            self.state = PeerState::Disconnected {
                at: now,
                interval: longer,
                reconnecting: false,
            };
        }
    }

    /// Begins a reconnection if it is time for one.
    pub fn try_reconnect(&mut self, now: u64) -> (r: bool)
        ensures
            r == old(self)@.state.is_due(now),
            final(self)@ == if r {
                PeerModel { state: old(self)@.state.reconnecting(), ..old(self)@ }
            } else {
                old(self)@
            },
    {
        if let PeerState::Disconnected { at, interval, reconnecting } = self.state {
            if now > at && now - at > interval && !reconnecting {
                self.state = PeerState::Disconnected { at, interval, reconnecting: true };
                return true;
            }
        }
        false
    }

    /// Whether more metadata can be asked of the peer.
    pub fn can_request_metadata(&self) -> (r: bool)
        ensures
            r == self@.can_request_metadata(),
    {
        self.is_connected() && self.supports_metadata && self.sent_metadata_requests
            < MAX_METADATA_REQUESTS
    }

    /// Queues a message of the metadata extension.
    fn send(&mut self, message: MetadataMessage)
        ensures
            final(self)@ == old(self)@.send(message@),
    {
        let ghost before = self@.outbox;
        let ghost view = MessageModel::Metadata(message@);
        self.outbox.push(Message::Metadata(message));
        assert(self@.outbox =~= before.push(view));
    }

    /// Asks the peer for a block of metadata.
    pub fn request_metadata(&mut self, index: usize)
        requires
            old(self)@.can_request_metadata(),
        ensures
            final(self)@ == old(self)@.request_metadata(index),
    {
        self.send(MetadataMessage::Request { index });
        self.sent_metadata_requests += 1;
    }

    /// Counts requests as no longer being out.
    pub fn sub_sent_metadata_requests(&mut self, count: usize)
        ensures
            final(self)@ == old(self)@.sub_sent(count as nat),
    {
        self.sent_metadata_requests = self.sent_metadata_requests.saturating_sub(count);
    }

    /// Counts requests that timed out.
    pub fn timeout_metadata(&mut self, count: usize)
        ensures
            final(self)@ == old(self)@.sub_sent(count as nat),
    {
        self.sub_sent_metadata_requests(count);
    }

    /// Counts a request that was refused.
    pub fn reject_metadata(&mut self)
        ensures
            final(self)@ == old(self)@.sub_sent(1),
    {
        self.sub_sent_metadata_requests(1);
    }

    /// Counts a block of metadata that came from the peer.
    pub fn receive_metadata(&mut self, requested: bool)
        ensures
            final(self)@ == old(self)@.receive_metadata(requested),
    {
        self.downloaded_metadata = self.downloaded_metadata.saturating_add(1);
        if requested {
            self.sub_sent_metadata_requests(1);
        }
    }

    /// Sends the peer a block of metadata.
    pub fn send_metadata(&mut self, index: usize, total_size: usize, piece: Vec<u8>)
        ensures
            final(self)@ == old(self)@.send_metadata(index, total_size, piece@),
    {
        self.send(MetadataMessage::Data { index, piece, total_size });
        self.uploaded_metadata = self.uploaded_metadata.saturating_add(1);
    }

    /// Refuses the peer a block of metadata.
    pub fn send_metadata_reject(&mut self, index: usize)
        ensures
            final(self)@ == old(self)@.send_metadata_reject(index),
    {
        self.send(MetadataMessage::Reject { index });
    }

    /// Takes over what the peer says of itself.
    pub fn receive_extension_handshake(&mut self, client: Option<String>, extensions: &StrMap)
        ensures
            final(self)@ == old(self)@.receive_extension_handshake(
                bit_torrent::text_of(client),
                extensions@,
            ),
    {
        self.client = client;
        let pex = extensions.position("ut_pex");
        let metadata = extensions.position("ut_metadata");
        proof {
            if let Some(i) = pex {
                assert(assoc::key_at(extensions@, i as int, "ut_pex"@));
            }
            if let Some(i) = metadata {
                assert(assoc::key_at(extensions@, i as int, "ut_metadata"@));
            }
        }
        self.supports_pex = pex.is_some();
        self.supports_metadata = metadata.is_some();
    }

    /// Keeps a message until the transfer starts.
    pub fn queue_transfer_message(&mut self, message: Message)
        ensures
            final(self)@ == old(self)@.queue(message@),
    {
        if let PeerState::Connected { initial_transfer_messages } = &mut self.state {
            let ghost before = connection::message_views(initial_transfer_messages@);
            let ghost view = message@;
            initial_transfer_messages.push(message);
            assert(connection::message_views(initial_transfer_messages@) =~= before.push(view));
        }
    }

    /// Starts the counters over.
    pub fn reset_statistics(&mut self)
        ensures
            final(self)@ == old(self)@.reset_statistics(),
    {
        self.uploaded_metadata = 0;
        self.downloaded_metadata = 0;
    }

    /// Takes out the messages that are queued.
    pub fn take_outbox(&mut self) -> (r: Vec<Message>)
        ensures
            final(self)@ == (PeerModel { outbox: Seq::empty(), ..old(self)@ }),
            connection::message_views(r@) == old(self)@.outbox,
    {
        let mut r: Vec<Message> = Vec::new();
        r.append(&mut self.outbox);
        proof {
            assert(connection::message_views(r@) =~= old(self)@.outbox);
            assert(self@.outbox =~= Seq::empty());
        }
        r
    }

    /// Takes out the messages that came before the transfer started.
    pub fn take_initial_messages(&mut self) -> (r: Option<Vec<Message>>)
        ensures
            match old(self)@.state {
                StateModel::Connected { initial_transfer_messages } => {
                    &&& r matches Some(messages) && connection::message_views(messages@)
                        == initial_transfer_messages
                    &&& final(self)@ == (PeerModel { state: StateModel::connected(), ..old(self)@ })
                },
                StateModel::Disconnected { .. } => r is None && final(self)@ == old(self)@,
            },
    {
        if let PeerState::Connected { initial_transfer_messages } = &mut self.state {
            let ghost before = connection::message_views(initial_transfer_messages@);
            let mut r: Vec<Message> = Vec::new();
            r.append(initial_transfer_messages);
            proof {
                assert(connection::message_views(r@) =~= before);
                assert(connection::message_views(initial_transfer_messages@) =~= Seq::empty());
            }
            Some(r)
        } else {
            None
        }
    }
}

} // verus!
