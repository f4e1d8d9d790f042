//! What every operation on a torrent keeps.

use crate::assoc;
use crate::digest;
use crate::metainfo;
use crate::metainfo::Metadata;
use crate::proto::bit_torrent::MessageModel;
use crate::proto::metadata::MetadataModel;
use crate::torrent;
use crate::torrent::model;
use crate::torrent::model::{
    ActionModel, AttemptModel, DiscoveryMechanism, EventModel, TorrentModel,
    MAX_DISCOVERY_ATTEMPTS,
};
use crate::torrent::peer;
use crate::torrent::peer::{PeerModel, StateModel};
use crate::torrent::piece;
use crate::torrent::piece::{Block, PieceModel};
use crate::types;
use crate::types::{PeerId, PeerInfoView, Sha1Hash};
use vstd::prelude::*;

verus! {

/// Every peer that is tried has been tried at least once and not too often, and
/// no two attempts are at the same peer.
pub open spec fn attempts_ok(attempts: Seq<AttemptModel>) -> bool {
    &&& forall|i: int|
        0 <= i < attempts.len() ==> 1 <= (#[trigger] attempts[i]).num_attempts
            <= MAX_DISCOVERY_ATTEMPTS
    &&& forall|i: int, j: int|
        0 <= i < j < attempts.len() ==> !types::same_peer(
            (#[trigger] attempts[i]).info,
            (#[trigger] attempts[j]).info,
        )
}

proof fn lemma_first_attempt(attempts: Seq<AttemptModel>, info: PeerInfoView, i: int)
    requires
        0 <= i <= attempts.len(),
    ensures
        i <= model::first_attempt(attempts, info, i) <= attempts.len(),
        forall|j: int|
            i <= j < model::first_attempt(attempts, info, i) ==> !types::same_peer(
                (#[trigger] attempts[j]).info,
                info,
            ),
    decreases attempts.len() - i,
{
    if i < attempts.len() && !types::same_peer(attempts[i].info, info) {
        lemma_first_attempt(attempts, info, i + 1);
    }
}

proof fn lemma_without(attempts: Seq<AttemptModel>, info: PeerInfoView)
    ensures
        model::without(attempts, info).len() <= attempts.len(),
        forall|i: int|
            0 <= i < model::without(attempts, info).len() ==> attempts.contains(
                #[trigger] model::without(attempts, info)[i],
            ),
        attempts_ok(attempts) ==> attempts_ok(model::without(attempts, info)),
    decreases attempts.len(),
{
    if attempts.len() > 0 {
        let rest = attempts.drop_last();
        let before = model::without(rest, info);
        let after = model::without(attempts, info);
        lemma_without(rest, info);
        assert forall|i: int| 0 <= i < after.len() implies attempts.contains(
            #[trigger] after[i],
        ) by {
            if i < before.len() {
                assert(rest.contains(before[i]));
                let k = choose|k: int| 0 <= k < rest.len() && rest[k] == before[i];
                assert(attempts[k] == after[i]);
            } else {
                assert(attempts[attempts.len() - 1] == after[i]);
            }
        }
        if attempts_ok(attempts) {
            assert(attempts_ok(rest)) by {
                assert forall|i: int, j: int| 0 <= i < j < rest.len() implies !types::same_peer(
                    (#[trigger] rest[i]).info,
                    (#[trigger] rest[j]).info,
                ) by {
                    assert(!types::same_peer(attempts[i].info, attempts[j].info));
                }
                assert forall|i: int| 0 <= i < rest.len() implies 1 <= (
                #[trigger] rest[i]).num_attempts <= MAX_DISCOVERY_ATTEMPTS by {
                    assert(attempts[i].num_attempts >= 1);
                }
            }
            assert forall|i: int, j: int| 0 <= i < j < after.len() implies !types::same_peer(
                (#[trigger] after[i]).info,
                (#[trigger] after[j]).info,
            ) by {
                if j == before.len() {
                    assert(rest.contains(before[i]));
                    let k = choose|k: int| 0 <= k < rest.len() && rest[k] == before[i];
                    assert(!types::same_peer(
                        attempts[k].info,
                        attempts[attempts.len() - 1].info,
                    ));
                } else {
                    assert(!types::same_peer(before[i].info, before[j].info));
                }
            }
            assert forall|i: int| 0 <= i < after.len() implies 1 <= (
            #[trigger] after[i]).num_attempts <= MAX_DISCOVERY_ATTEMPTS by {
                let k = choose|k: int| 0 <= k < attempts.len() && attempts[k] == after[i];
                assert(attempts[k].num_attempts >= 1);
            }
        }
    }
}

/// A peer that is heard of is never tried more often than it may be, and is tried
/// once at a time. One that is known already is not tried at all.
pub proof fn law_discover(m: TorrentModel, info: PeerInfoView, mechanism: DiscoveryMechanism)
    requires
        attempts_ok(m.attempts),
    ensures
        attempts_ok(m.discover(info, mechanism).attempts),
        m.discover(info, mechanism).peers == m.peers,
        model::knows(m.peers, info) ==> m.discover(info, mechanism) == m,
        m.discover(info, mechanism).connects.len() <= m.connects.len() + 1,
{
    let k = model::first_attempt(m.attempts, info, 0);
    lemma_first_attempt(m.attempts, info, 0);
    lemma_without(m.attempts, info);
    let after = m.discover(info, mechanism).attempts;
    if !model::knows(m.peers, info) {
        if k >= m.attempts.len() {
            assert forall|i: int, j: int| 0 <= i < j < after.len() implies !types::same_peer(
                (#[trigger] after[i]).info,
                (#[trigger] after[j]).info,
            ) by {
                if j < m.attempts.len() {
                    assert(!types::same_peer(m.attempts[i].info, m.attempts[j].info));
                } else {
                    assert(!types::same_peer(m.attempts[i].info, info));
                }
            }
        } else if m.attempts[k].num_attempts < MAX_DISCOVERY_ATTEMPTS {
            assert forall|i: int, j: int| 0 <= i < j < after.len() implies !types::same_peer(
                (#[trigger] after[i]).info,
                (#[trigger] after[j]).info,
            ) by {
                assert(!types::same_peer(m.attempts[i].info, m.attempts[j].info));
            }
        }
    }
}

/// The same of peers that are heard of one after the other.
pub proof fn law_discover_all(
    m: TorrentModel,
    infos: Seq<PeerInfoView>,
    mechanism: DiscoveryMechanism,
)
    requires
        attempts_ok(m.attempts),
    ensures
        attempts_ok(m.discover_all(infos, mechanism).attempts),
        m.discover_all(infos, mechanism) == (TorrentModel {
            attempts: m.discover_all(infos, mechanism).attempts,
            connects: m.discover_all(infos, mechanism).connects,
            ..m
        }),
    decreases infos.len(),
{
    if infos.len() > 0 {
        law_discover_all(m, infos.drop_last(), mechanism);
        law_discover(m.discover_all(infos.drop_last(), mechanism), infos.last(), mechanism);
    }
}

/// Discovery changes the attempts and the connections to be made, and nothing
/// else.
proof fn lemma_discover_all_frame(
    m: TorrentModel,
    infos: Seq<PeerInfoView>,
    mechanism: DiscoveryMechanism,
)
    ensures
        m.discover_all(infos, mechanism).peers == m.peers,
        m.discover_all(infos, mechanism).metadata == m.metadata,
        m.discover_all(infos, mechanism).transfer == m.transfer,
    decreases infos.len(),
{
    if infos.len() > 0 {
        lemma_discover_all_frame(m, infos.drop_last(), mechanism);
    }
}

/// No event puts the attempts out of order.
pub proof fn law_handle_attempts(m: TorrentModel, event: EventModel, now: u64)
    requires
        attempts_ok(m.attempts),
    ensures
        m.handle(event, now) matches Ok((next, _)) ==> attempts_ok(next.attempts),
{
    match event {
        EventModel::Message(peer, message) => {
            if assoc::has_key(m.peers, peer) {
                lemma_message_attempts(m, peer, message, now);
            }
        },
        EventModel::Connection { info, .. } => {
            lemma_without(m.attempts, info);
        },
        EventModel::ConnectionFailure(info, _) => {
            law_discover(m, info, DiscoveryMechanism::Tracker);
        },
        EventModel::Disconnection(_, _) => {},
        EventModel::Tracker(infos) => {
            law_discover_all(m, infos, DiscoveryMechanism::Tracker);
        },
    }
}

proof fn lemma_message_attempts(
    m: TorrentModel,
    peer: PeerId,
    message: MessageModel,
    now: u64,
)
    requires
        attempts_ok(m.attempts),
    ensures
        m.handle_message(peer, message, now) matches Ok((next, _)) ==> attempts_ok(next.attempts),
{
    match message {
        MessageModel::PEX(pex) => {
            law_discover_all(m, pex.added, DiscoveryMechanism::PEX);
        },
        MessageModel::Metadata(MetadataModel::Data { index, piece, .. }) => {
            let who = m.metadata.asked(index as int);
            let counted = m.with_peer(peer, |p: PeerModel| p.receive_metadata(who == Some(peer)));
            let answered = if who is Some && who != Some(peer) {
                counted.with_peer(who->0, |p: PeerModel| p.sub_sent(1))
            } else {
                counted
            };
            let next = TorrentModel {
                metadata: m.metadata.place(index as int, piece, false).0,
                ..answered
            };
            torrent::lemma_dispatch_attempts(next, next.peers.len(), now);
        },
        MessageModel::Metadata(MetadataModel::Reject { index }) => {
            let next = TorrentModel {
                metadata: m.metadata.reject(index as int, peer),
                ..m.with_peer(peer, |p: PeerModel| p.sub_sent(1))
            };
            torrent::lemma_dispatch_attempts(next, next.peers.len(), now);
        },
        MessageModel::ExtensionHandshake { extensions, client, metadata_size, .. } => {
            if let Some(size) = metadata_size {
                let told = m.with_peer(
                    peer,
                    |p: PeerModel| p.receive_extension_handshake(client, extensions),
                );
                let next = TorrentModel {
                    metadata: piece::fresh(
                        m.metadata.index,
                        m.metadata.block_size,
                        size,
                        m.metadata.hash,
                        false,
                    ),
                    ..told
                };
                torrent::lemma_dispatch_attempts(next, next.peers.len(), now);
            }
        },
        _ => {},
    }
}

/// How many requests for metadata a peer counts as being out.
pub open spec fn sent_of(peers: Seq<(PeerId, PeerModel)>, id: PeerId) -> nat {
    if assoc::has_key(peers, id) {
        peers[assoc::index_of(peers, id)].1.sent_metadata_requests
    } else {
        0
    }
}

/// The books on metadata are in order: peers stand under their own identities,
/// none has more requests out than it may, and every block that is asked of a
/// peer is counted as being out.
pub open spec fn accounted(m: TorrentModel) -> bool {
    &&& assoc::distinct_keys(m.peers)
    &&& forall|i: int| 0 <= i < m.peers.len() ==> peer_ok(#[trigger] m.peers[i])
    &&& forall|id: PeerId|
        #![trigger piece::count_asked(m.metadata.blocks, id)]
        piece::count_asked(m.metadata.blocks, id) <= sent_of(m.peers, id)
}

/// A peer stands under its own identity, and has no more requests out than it
/// may.
pub open spec fn peer_ok(e: (PeerId, PeerModel)) -> bool {
    e.1.info.id == Some(e.0) && e.1.sent_metadata_requests <= peer::MAX_METADATA_REQUESTS
}

/// A change to a peer that keeps its identity and asks nothing more of it.
pub open spec fn tame(f: spec_fn(PeerModel) -> PeerModel) -> bool {
    forall|p: PeerModel| (#[trigger] f(p)).info == p.info && f(p).sent_metadata_requests
        <= p.sent_metadata_requests
}

proof fn lemma_sent_changed(
    peers: Seq<(PeerId, PeerModel)>,
    id: PeerId,
    f: spec_fn(PeerModel) -> PeerModel,
)
    requires
        assoc::distinct_keys(peers),
        forall|i: int| 0 <= i < peers.len() ==> peer_ok(#[trigger] peers[i]),
        tame(f),
    ensures
        assoc::distinct_keys(assoc::changed(peers, id, f)),
        forall|i: int|
            0 <= i < assoc::changed(peers, id, f).len() ==> peer_ok(
                #[trigger] assoc::changed(peers, id, f)[i],
            ),
        forall|q: PeerId| #[trigger]
            sent_of(assoc::changed(peers, id, f), q) == if q == id && assoc::has_key(peers, id) {
                f(peers[assoc::index_of(peers, id)].1).sent_metadata_requests
            } else {
                sent_of(peers, q)
            },
{
    let after = assoc::changed(peers, id, f);
    assoc::lemma_changed_keys(peers, id, f);
    assoc::lemma_same_keys(peers, after);
    if assoc::has_key(peers, id) {
        let at = assoc::index_of(peers, id);
        assert(assoc::key_at(peers, at, id));
        assert(peer_ok(peers[at]));
        let p = peers[at].1;
        assert(f(p).info == p.info);
    }
    assert forall|q: PeerId| #[trigger] sent_of(after, q) == if q == id && assoc::has_key(
        peers,
        id,
    ) {
        f(peers[assoc::index_of(peers, id)].1).sent_metadata_requests
    } else {
        sent_of(peers, q)
    } by {
        if assoc::has_key(peers, q) {
            let i = assoc::index_of(peers, q);
            assert(assoc::key_at(peers, i, q));
        }
    }
}

/// A change to a peer that leaves its requests alone keeps the books in order.
proof fn lemma_with_peer(m: TorrentModel, id: PeerId, f: spec_fn(PeerModel) -> PeerModel)
    requires
        accounted(m),
        tame(f),
        forall|p: PeerModel| (#[trigger] f(p)).sent_metadata_requests == p.sent_metadata_requests,
    ensures
        accounted(m.with_peer(id, f)),
{
    lemma_sent_changed(m.peers, id, f);
    let after = m.with_peer(id, f);
    assert forall|q: PeerId|
        #![trigger piece::count_asked(after.metadata.blocks, q)]
        piece::count_asked(after.metadata.blocks, q) <= sent_of(after.peers, q) by {
        assert(piece::count_asked(m.metadata.blocks, q) <= sent_of(m.peers, q));
        assert(sent_of(assoc::changed(m.peers, id, f), q) == sent_of(m.peers, q));
    }
}

/// Asking a peer for metadata keeps the books in order.
pub proof fn law_request_accounted(m: TorrentModel, i: int, block: usize, now: u64)
    requires
        accounted(m),
        0 <= i < m.peers.len(),
        m.peers[i].1.can_request_metadata(),
        block < m.metadata.blocks.len(),
        m.metadata.blocks[block as int] is Free,
    ensures
        accounted(m.request_metadata(i, block, now)),
{
    let (id, p) = m.peers[i];
    let after = m.request_metadata(i, block, now);
    assert(assoc::key_at(m.peers, i, id));
    assoc::lemma_index_unique(m.peers, i, id);
    assoc::lemma_same_keys(m.peers, after.peers);
    assert forall|j: int| 0 <= j < after.peers.len() implies peer_ok(
        #[trigger] after.peers[j],
    ) by {
        assert(peer_ok(m.peers[j]));
    }
    assert forall|q: PeerId|
        #![trigger piece::count_asked(after.metadata.blocks, q)]
        piece::count_asked(after.metadata.blocks, q) <= sent_of(after.peers, q) by {
        piece::lemma_count_update(
            m.metadata.blocks,
            block as int,
            Block::Requested { peer: id, since: now },
            q,
        );
        assert(piece::count_asked(m.metadata.blocks, q) <= sent_of(m.peers, q));
        if assoc::has_key(m.peers, q) {
            let k = assoc::index_of(m.peers, q);
            assert(assoc::key_at(m.peers, k, q));
        }
    }
}

proof fn lemma_first_free(m: PieceModel, k: int, id: PeerId)
    requires
        0 <= k,
        m.blocks.len() <= usize::MAX,
    ensures
        m.first_free_from(k, id) matches Some(b) ==> b < m.blocks.len() && m.blocks[b as int] is Free,
    decreases m.blocks.len() - k,
{
    if k < m.blocks.len() && !m.free_for(k, id) {
        lemma_first_free(m, k + 1, id);
    }
}

proof fn lemma_dispatch_one_accounted(m: TorrentModel, i: int, now: u64)
    requires
        accounted(m),
        m.metadata.blocks.len() <= usize::MAX,
    ensures
        accounted(m.dispatch_one(i, now)),
        m.dispatch_one(i, now).metadata.blocks.len() == m.metadata.blocks.len(),
    decreases
            (if 0 <= i < m.peers.len() {
                peer::MAX_METADATA_REQUESTS - m.peers[i].1.sent_metadata_requests
            } else {
                0
            }),
{
    if 0 <= i < m.peers.len() && m.peers[i].1.can_request_metadata() {
        lemma_first_free(m.metadata, 0, m.peers[i].0);
        if let Some(block) = m.metadata.first_free(m.peers[i].0) {
            law_request_accounted(m, i, block, now);
            lemma_dispatch_one_accounted(m.request_metadata(i, block, now), i, now);
        }
    }
}

/// Asking all peers for metadata keeps the books in order.
pub proof fn law_dispatch_accounted(m: TorrentModel, n: nat, now: u64)
    requires
        accounted(m),
        m.metadata.blocks.len() <= usize::MAX,
    ensures
        accounted(m.dispatch_upto(n, now)),
        m.dispatch_upto(n, now).metadata.blocks.len() == m.metadata.blocks.len(),
    decreases n,
{
    if n > 0 {
        law_dispatch_accounted(m, (n - 1) as nat, now);
        lemma_dispatch_one_accounted(m.dispatch_upto((n - 1) as nat, now), n - 1, now);
    }
}

/// Nothing is asked of a piece that has just been started over.
proof fn lemma_nothing_asked(blocks: Seq<Block>, id: PeerId)
    requires
        forall|k: int| 0 <= k < blocks.len() ==> !((#[trigger] blocks[k]) is Requested),
    ensures
        piece::count_asked(blocks, id) == 0,
{
    piece::lemma_count_zero(blocks, id);
}

/// Placing a block answers the request for it, and asks for nothing.
proof fn lemma_place_asked(m: PieceModel, k: int, block: Seq<u8>, id: PeerId)
    requires
        0 <= k,
        !m.obtained(k),
    ensures
        piece::count_asked(m.place(k, block, false).0.blocks, id) <= piece::count_asked(
            m.blocks,
            id,
        ) - (if m.asked(k) == Some(id) {
            1int
        } else {
            0int
        }),
        m.place(k, block, false).0.blocks.len() == m.blocks.len(),
{
    if k < m.blocks.len() {
        piece::lemma_count_update(m.blocks, k, Block::Free, id);
        piece::lemma_count_update(m.blocks, k, Block::Obtained, id);
        let next = PieceModel {
            blocks: m.blocks.update(k, Block::Obtained),
            data: m.filled(k, block),
            ..m
        };
        lemma_nothing_asked(next.emptied().blocks, id);
    }
}

/// A block of metadata that comes in keeps the books in order.
pub proof fn law_receive_accounted(
    m: TorrentModel,
    index: usize,
    piece: Seq<u8>,
    id: PeerId,
    now: u64,
)
    requires
        accounted(m),
        m.metadata.blocks.len() <= usize::MAX,
        !m.metadata.obtained(index as int),
    ensures
        m.receive_metadata(index, piece, id, now) matches Ok((next, _)) ==> accounted(next),
{
    let who = m.metadata.asked(index as int);
    let f = |p: PeerModel| p.receive_metadata(who == Some(id));
    let g = |p: PeerModel| p.sub_sent(1);
    let counted = m.with_peer(id, f);
    let answered = if who is Some && who != Some(id) {
        counted.with_peer(who->0, g)
    } else {
        counted
    };
    let next = TorrentModel {
        metadata: m.metadata.place(index as int, piece, false).0,
        ..answered
    };
    lemma_sent_changed(m.peers, id, f);
    if who is Some && who != Some(id) {
        lemma_sent_changed(counted.peers, who->0, g);
    }
    assert(accounted(next)) by {
        assert forall|q: PeerId|
            #![trigger piece::count_asked(next.metadata.blocks, q)]
            piece::count_asked(next.metadata.blocks, q) <= sent_of(next.peers, q) by {
            lemma_place_asked(m.metadata, index as int, piece, q);
            assert(piece::count_asked(m.metadata.blocks, q) <= sent_of(m.peers, q));
            assert(sent_of(assoc::changed(m.peers, id, f), q) >= sent_of(m.peers, q) - (if who
                == Some(id) && q == id {
                1int
            } else {
                0int
            }));
            if who is Some && who != Some(id) {
                assert(sent_of(assoc::changed(counted.peers, who->0, g), q) >= sent_of(
                    counted.peers,
                    q,
                ) - (if who == Some(q) {
                    1int
                } else {
                    0int
                }));
            }
            if who == Some(q) {
                piece::lemma_count_zero(m.metadata.blocks, q);
                assert(piece::asked_of(m.metadata.blocks[index as int], q));
            }
        }
    }
    lemma_place_asked(m.metadata, index as int, piece, id);
    law_dispatch_accounted(next, next.peers.len(), now);
}

/// A refusal of metadata keeps the books in order.
pub proof fn law_reject_accounted(m: TorrentModel, index: usize, id: PeerId, now: u64)
    requires
        accounted(m),
        m.metadata.blocks.len() <= usize::MAX,
        m.metadata.asked(index as int) == Some(id),
    ensures
        accounted(
            (TorrentModel {
                metadata: m.metadata.reject(index as int, id),
                ..m.with_peer(id, |p: PeerModel| p.sub_sent(1))
            }).dispatch(now),
        ),
{
    let g = |p: PeerModel| p.sub_sent(1);
    let next = TorrentModel {
        metadata: m.metadata.reject(index as int, id),
        ..m.with_peer(id, g)
    };
    lemma_sent_changed(m.peers, id, g);
    assert forall|q: PeerId|
        #![trigger piece::count_asked(next.metadata.blocks, q)]
        piece::count_asked(next.metadata.blocks, q) <= sent_of(next.peers, q) by {
        piece::lemma_count_update(m.metadata.blocks, index as int, Block::Free, q);
        assert(piece::count_asked(m.metadata.blocks, q) <= sent_of(m.peers, q));
        assert(sent_of(assoc::changed(m.peers, id, g), q) >= sent_of(m.peers, q) - (if q == id {
            1int
        } else {
            0int
        }));
    }
    assert(next.metadata.blocks.len() == m.metadata.blocks.len());
    law_dispatch_accounted(next, next.peers.len(), now);
}

/// What a peer says of itself keeps the books in order.
proof fn lemma_handshake_accounted(
    m: TorrentModel,
    id: PeerId,
    client: Option<Seq<char>>,
    extensions: Seq<(Seq<char>, u8)>,
    metadata_size: Option<usize>,
    now: u64,
)
    requires
        accounted(m),
        m.metadata.block_size > 0,
    ensures
        accounted(m.handle_extension_handshake(id, client, extensions, metadata_size, now)),
{
    let f = |p: PeerModel| p.receive_extension_handshake(client, extensions);
    let told = m.with_peer(id, f);
    lemma_with_peer(m, id, f);
    if let Some(size) = metadata_size {
        let next = TorrentModel {
            metadata: piece::fresh(
                m.metadata.index,
                m.metadata.block_size,
                size,
                m.metadata.hash,
                false,
            ),
            ..told
        };
        assert(accounted(next)) by {
            assert forall|q: PeerId|
                #![trigger piece::count_asked(next.metadata.blocks, q)]
                piece::count_asked(next.metadata.blocks, q) <= sent_of(next.peers, q) by {
                lemma_nothing_asked(next.metadata.blocks, q);
            }
        }
        lemma_blocks_counted(m.metadata.block_size as int, size as int);
        law_dispatch_accounted(next, next.peers.len(), now);
    }
}

/// There are no more blocks than bytes.
proof fn lemma_blocks_counted(block_size: int, length: int)
    requires
        block_size > 0,
        length >= 0,
    ensures
        0 <= piece::blocks_for(block_size, length) <= length,
{
    if length > 0 {
        assert(0 <= (length - 1) / block_size <= length - 1) by (nonlinear_arith)
            requires
                block_size > 0,
                length > 0,
        ;
    }
}

/// No message puts the books on metadata out of order.
proof fn lemma_message_accounted(
    m: TorrentModel,
    id: PeerId,
    message: MessageModel,
    now: u64,
)
    requires
        accounted(m),
        m.metadata.wf(),
    ensures
        m.handle_message(id, message, now) matches Ok((next, _)) ==> accounted(next),
{
    lemma_blocks_counted(m.metadata.block_size as int, m.metadata.length as int);
    match message {
        MessageModel::PEX(pex) => {
            lemma_discover_all_frame(m, pex.added, DiscoveryMechanism::PEX);
        },
        MessageModel::Metadata(MetadataModel::Request { index }) => {
            if let Some(bytes) = m.metadata.block_data(index as int) {
                lemma_with_peer(
                    m,
                    id,
                    |p: PeerModel|
                        p.send_metadata(index, m.metadata.blocks.len() as usize, bytes),
                );
            }
            lemma_with_peer(m, id, |p: PeerModel| p.send_metadata_reject(index));
        },
        MessageModel::Metadata(MetadataModel::Data { index, piece, .. }) => {
            if !m.metadata.obtained(index as int) {
                law_receive_accounted(m, index, piece, id, now);
            }
        },
        MessageModel::Metadata(MetadataModel::Reject { index }) => {
            if m.metadata.asked(index as int) == Some(id) {
                law_reject_accounted(m, index, id, now);
            }
        },
        MessageModel::ExtensionHandshake { extensions, client, metadata_size, .. } => {
            lemma_handshake_accounted(m, id, client, extensions, metadata_size, now);
        },
        _ => {
            lemma_with_peer(m, id, |p: PeerModel| p.queue(message));
        },
    }
}

proof fn lemma_first_known(peers: Seq<(PeerId, PeerModel)>, info: PeerInfoView, i: int)
    requires
        0 <= i <= peers.len(),
    ensures
        i <= model::first_known(peers, info, i) <= peers.len(),
        forall|j: int|
            i <= j < model::first_known(peers, info, i) ==> !types::same_peer(
                (#[trigger] peers[j]).1.info,
                info,
            ),
    decreases peers.len() - i,
{
    if i < peers.len() && !types::same_peer(peers[i].1.info, info) {
        lemma_first_known(peers, info, i + 1);
    }
}

/// A connection that is made keeps the books in order.
proof fn lemma_connection_accounted(
    m: TorrentModel,
    id: PeerId,
    supports_fast: bool,
    supports_dht: bool,
    info: PeerInfoView,
    known_id: Option<PeerId>,
)
    requires
        accounted(m),
    ensures
        accounted(m.handle_connection(id, supports_fast, supports_dht, info, known_id)),
{
    let after = m.handle_connection(id, supports_fast, supports_dht, info, known_id);
    match known_id {
        Some(known) => {
            let f = |p: PeerModel| PeerModel { state: StateModel::connected(), ..p };
            lemma_with_peer(m, known, f);
            let joined = m.with_peer(known, f);
            assert(after.peers == joined.peers);
        },
        None => {
            let found = PeerInfoView { id: Some(id), ..info };
            let k = model::first_known(m.peers, found, 0);
            lemma_first_known(m.peers, found, 0);
            if k < m.peers.len() {
                assoc::lemma_same_keys(m.peers, after.peers);
                assert forall|j: int| 0 <= j < after.peers.len() implies peer_ok(
                    #[trigger] after.peers[j],
                ) by {
                    assert(peer_ok(m.peers[j]));
                }
                assert forall|q: PeerId|
                    #![trigger piece::count_asked(after.metadata.blocks, q)]
                    piece::count_asked(after.metadata.blocks, q) <= sent_of(after.peers, q) by {
                    assert(piece::count_asked(m.metadata.blocks, q) <= sent_of(m.peers, q));
                    if assoc::has_key(m.peers, q) {
                        let j = assoc::index_of(m.peers, q);
                        assert(assoc::key_at(m.peers, j, q));
                    }
                }
            } else {
                assert(!assoc::has_key(m.peers, id)) by {
                    if assoc::has_key(m.peers, id) {
                        let j = assoc::index_of(m.peers, id);
                        assert(assoc::key_at(m.peers, j, id));
                        assert(peer_ok(m.peers[j]));
                        assert(types::same_peer(m.peers[j].1.info, found));
                    }
                }
                let new = peer::fresh(found, supports_fast, supports_dht);
                assoc::lemma_inserted_keys(m.peers, id, new);
                assert forall|j: int| 0 <= j < after.peers.len() implies peer_ok(
                    #[trigger] after.peers[j],
                ) by {
                    if j < m.peers.len() {
                        assert(peer_ok(m.peers[j]));
                    }
                }
                assert forall|q: PeerId|
                    #![trigger piece::count_asked(after.metadata.blocks, q)]
                    piece::count_asked(after.metadata.blocks, q) <= sent_of(after.peers, q) by {
                    assert(piece::count_asked(m.metadata.blocks, q) <= sent_of(m.peers, q));
                    if assoc::has_key(m.peers, q) {
                        let j = assoc::index_of(m.peers, q);
                        assert(assoc::key_at(m.peers, j, q));
                        assert(assoc::key_at(after.peers, j, q));
                        assoc::lemma_index_unique(after.peers, j, q);
                    }
                }
            }
        },
    }
}

/// No event puts the books on metadata out of order: every block that is asked of
/// a peer stays counted, no peer is asked for more than it may be, and peers stay
/// under their own identities.
pub proof fn law_handle_accounted(m: TorrentModel, event: EventModel, now: u64)
    requires
        accounted(m),
        m.metadata.wf(),
    ensures
        m.handle(event, now) matches Ok((next, _)) ==> accounted(next),
{
    match event {
        EventModel::Message(id, message) => {
            if assoc::has_key(m.peers, id) {
                lemma_message_accounted(m, id, message, now);
            }
        },
        EventModel::Connection { id, supports_fast, supports_dht, info, known_id } => {
            lemma_connection_accounted(m, id, supports_fast, supports_dht, info, known_id);
        },
        EventModel::ConnectionFailure(info, known_id) => {
            let tried = m.discover(info, DiscoveryMechanism::Tracker);
            assert(accounted(tried)) by {
                assert(tried.peers == m.peers);
                assert(tried.metadata == m.metadata);
            }
            if let Some(id) = known_id {
                lemma_with_peer(
                    tried,
                    id,
                    |p: PeerModel| PeerModel { state: p.state.back_off(now), ..p },
                );
            }
        },
        EventModel::Disconnection(id, error) => {
            let severed = TorrentModel { peers: m.peers, ..m.handle_disconnection(id, error, now) };
            assert(accounted(severed)) by {
                assert(severed.metadata == m.metadata);
            }
            lemma_with_peer(severed, id, |p: PeerModel| p.disconnect(error, now));
            assert(m.handle_disconnection(id, error, now).peers == severed.with_peer(
                id,
                |p: PeerModel| p.disconnect(error, now),
            ).peers);
        },
        EventModel::Tracker(infos) => {
            lemma_discover_all_frame(m, infos, DiscoveryMechanism::Tracker);
        },
    }
}

proof fn lemma_timed_out_sent(peers: Seq<(PeerId, PeerModel)>, late: Seq<PeerId>)
    requires
        assoc::distinct_keys(peers),
        forall|i: int| 0 <= i < peers.len() ==> peer_ok(#[trigger] peers[i]),
    ensures
        assoc::distinct_keys(model::timed_out(peers, late)),
        forall|i: int|
            0 <= i < model::timed_out(peers, late).len() ==> peer_ok(
                #[trigger] model::timed_out(peers, late)[i],
            ),
        forall|q: PeerId| #[trigger]
            sent_of(model::timed_out(peers, late), q) >= sent_of(peers, q) - piece::occurrences(
                late,
                q,
            ),
    decreases late.len(),
{
    if late.len() > 0 {
        let rest = late.drop_last();
        let g = |p: PeerModel| p.sub_sent(1);
        lemma_timed_out_sent(peers, rest);
        let before = model::timed_out(peers, rest);
        lemma_sent_changed(before, late.last(), g);
        assert forall|q: PeerId| #[trigger]
            sent_of(model::timed_out(peers, late), q) >= sent_of(peers, q) - piece::occurrences(
                late,
                q,
            ) by {
            assert(sent_of(before, q) >= sent_of(peers, q) - piece::occurrences(rest, q));
            assert(sent_of(assoc::changed(before, late.last(), g), q) >= sent_of(before, q) - (if q
                == late.last() {
                1int
            } else {
                0int
            }));
        }
    }
}

/// A second keeps the books on metadata in order: requests that time out are
/// taken off the books.
pub proof fn law_tick_accounted(m: TorrentModel, now: u64)
    requires
        accounted(m),
        m.metadata.wf(),
    ensures
        accounted(m.tick(now)),
{
    let late = piece::late_peers(m.metadata.blocks, now);
    let expired = TorrentModel {
        metadata: m.metadata.expire(now),
        peers: model::timed_out(m.peers, late),
        ..m
    };
    lemma_timed_out_sent(m.peers, late);
    assert(accounted(expired)) by {
        assert forall|q: PeerId|
            #![trigger piece::count_asked(expired.metadata.blocks, q)]
            piece::count_asked(expired.metadata.blocks, q) <= sent_of(expired.peers, q) by {
            piece::lemma_count_expire(m.metadata, now, q);
            assert(piece::count_asked(m.metadata.blocks, q) <= sent_of(m.peers, q));
            assert(sent_of(model::timed_out(m.peers, late), q) >= sent_of(m.peers, q)
                - piece::occurrences(late, q));
        }
    }
    lemma_blocks_counted(m.metadata.block_size as int, m.metadata.length as int);
    law_dispatch_accounted(expired, expired.peers.len(), now);
    let asked = if m.transfer is None {
        m.expire_metadata(now)
    } else {
        m
    };
    let trying = asked.reconnect(now);
    lemma_mapped_accounted(asked, trying);
    lemma_mapped_accounted(trying, trying.statistics());
    let counted = trying.statistics();
    assert(m.tick(now).peers == counted.peers);
    assert(m.tick(now).metadata == counted.metadata);
}

/// Peers that only changed where the books do not look.
proof fn lemma_mapped_accounted(a: TorrentModel, b: TorrentModel)
    requires
        accounted(a),
        b.metadata == a.metadata,
        b.peers.len() == a.peers.len(),
        forall|i: int|
            0 <= i < a.peers.len() ==> (#[trigger] b.peers[i]).0 == a.peers[i].0
                && b.peers[i].1.info == a.peers[i].1.info && b.peers[i].1.sent_metadata_requests
                == a.peers[i].1.sent_metadata_requests,
    ensures
        accounted(b),
{
    assoc::lemma_same_keys(a.peers, b.peers);
    assert forall|j: int| 0 <= j < b.peers.len() implies peer_ok(#[trigger] b.peers[j]) by {
        assert(peer_ok(a.peers[j]));
    }
    assert forall|q: PeerId|
        #![trigger piece::count_asked(b.metadata.blocks, q)]
        piece::count_asked(b.metadata.blocks, q) <= sent_of(b.peers, q) by {
        assert(piece::count_asked(a.metadata.blocks, q) <= sent_of(a.peers, q));
        if assoc::has_key(a.peers, q) {
            let k = assoc::index_of(a.peers, q);
            assert(assoc::key_at(a.peers, k, q));
            assert(b.peers[k].0 == a.peers[k].0);
        }
    }
}

/// The books of a torrent that has just been added are in order, and no peer is
/// being tried.
pub proof fn law_added(
    client_id: PeerId,
    info_hash: Sha1Hash,
    metadata: PieceModel,
    display_name: Seq<char>,
)
    requires
        forall|k: int| 0 <= k < metadata.blocks.len() ==> !((#[trigger] metadata.blocks[k]) is Requested),
    ensures
        accounted(torrent::added(client_id, info_hash, metadata, display_name)),
        attempts_ok(torrent::added(client_id, info_hash, metadata, display_name).attempts),
{
    let m = torrent::added(client_id, info_hash, metadata, display_name);
    assert forall|q: PeerId|
        #![trigger piece::count_asked(m.metadata.blocks, q)]
        piece::count_asked(m.metadata.blocks, q) <= sent_of(m.peers, q) by {
        lemma_nothing_asked(m.metadata.blocks, q);
    }
}

/// Starting a transfer keeps the books in order, and every message that a
/// connected peer has sent is handed to the transfer, behind its connection.
pub proof fn law_start(m: TorrentModel, metadata: Metadata, have: Seq<u8>)
    requires
        accounted(m),
    ensures
        accounted(m.start(metadata, have)),
        m.start(metadata, have).backlog == model::backlog_upto(m.peers, m.peers.len()),
        forall|i: int|
            0 <= i < m.peers.len() ==> ((#[trigger] m.start(metadata, have).peers[i]).1.state matches
            StateModel::Connected { initial_transfer_messages } ==> initial_transfer_messages.len()
                == 0),
{
    lemma_mapped_accounted(m, m.start(metadata, have));
}

/// Only metadata with the right digest starts a transfer: what a torrent is
/// loaded with was read from bytes whose digest is the one that the torrent was
/// added with.
pub proof fn law_loaded_metadata_matches(m: TorrentModel, event: EventModel, now: u64)
    ensures
        m.handle(event, now) matches Ok((_, ActionModel::Load(info))) ==> exists|bytes: Seq<u8>|
            #[trigger] digest::sha1_digest(bytes) == m.metadata.hash.bytes@ && metainfo::parse_info(
                bytes,
            ) == Ok::<_, Seq<char>>(info),
{
    if let EventModel::Message(_, MessageModel::Metadata(MetadataModel::Data { index, piece, .. })) =
        event {
        let (_, whole) = m.metadata.place(index as int, piece, false);
        if let Some(bytes) = whole {
            assert(digest::sha1_digest(bytes) == m.metadata.hash.bytes@);
        }
    }
}

/// No event changes the digest that the metadata has to have.
pub proof fn law_hash_kept(m: TorrentModel, event: EventModel, now: u64)
    ensures
        m.handle(event, now) matches Ok((next, _)) ==> next.metadata.hash == m.metadata.hash
            && next.info_hash == m.info_hash,
{
    match event {
        EventModel::Message(id, message) => {
            if assoc::has_key(m.peers, id) {
                lemma_message_hash(m, id, message, now);
            }
        },
        EventModel::ConnectionFailure(_, _) => {},
        EventModel::Tracker(infos) => {
            lemma_discover_all_hash(m, infos, DiscoveryMechanism::Tracker);
        },
        _ => {},
    }
}

proof fn lemma_discover_all_hash(
    m: TorrentModel,
    infos: Seq<PeerInfoView>,
    mechanism: DiscoveryMechanism,
)
    ensures
        m.discover_all(infos, mechanism).metadata == m.metadata,
        m.discover_all(infos, mechanism).info_hash == m.info_hash,
    decreases infos.len(),
{
    if infos.len() > 0 {
        lemma_discover_all_hash(m, infos.drop_last(), mechanism);
    }
}

proof fn lemma_dispatch_hash(m: TorrentModel, n: nat, now: u64)
    ensures
        m.dispatch_upto(n, now).metadata.hash == m.metadata.hash,
        m.dispatch_upto(n, now).info_hash == m.info_hash,
    decreases n,
{
    if n > 0 {
        lemma_dispatch_hash(m, (n - 1) as nat, now);
        lemma_dispatch_one_hash(m.dispatch_upto((n - 1) as nat, now), n - 1, now);
    }
}

proof fn lemma_dispatch_one_hash(m: TorrentModel, i: int, now: u64)
    ensures
        m.dispatch_one(i, now).metadata.hash == m.metadata.hash,
        m.dispatch_one(i, now).info_hash == m.info_hash,
    decreases
            (if 0 <= i < m.peers.len() {
                peer::MAX_METADATA_REQUESTS - m.peers[i].1.sent_metadata_requests
            } else {
                0
            }),
{
    if 0 <= i < m.peers.len() && m.peers[i].1.can_request_metadata() {
        if let Some(block) = m.metadata.first_free(m.peers[i].0) {
            lemma_dispatch_one_hash(m.request_metadata(i, block, now), i, now);
        }
    }
}

proof fn lemma_message_hash(m: TorrentModel, id: PeerId, message: MessageModel, now: u64)
    ensures
        m.handle_message(id, message, now) matches Ok((next, _)) ==> next.metadata.hash
            == m.metadata.hash && next.info_hash == m.info_hash,
{
    match message {
        MessageModel::PEX(pex) => {
            lemma_discover_all_hash(m, pex.added, DiscoveryMechanism::PEX);
        },
        MessageModel::Metadata(MetadataModel::Data { index, piece, .. }) => {
            let who = m.metadata.asked(index as int);
            let counted = m.with_peer(id, |p: PeerModel| p.receive_metadata(who == Some(id)));
            let answered = if who is Some && who != Some(id) {
                counted.with_peer(who->0, |p: PeerModel| p.sub_sent(1))
            } else {
                counted
            };
            let next = TorrentModel {
                metadata: m.metadata.place(index as int, piece, false).0,
                ..answered
            };
            lemma_dispatch_hash(next, next.peers.len(), now);
        },
        MessageModel::Metadata(MetadataModel::Reject { index }) => {
            let next = TorrentModel {
                metadata: m.metadata.reject(index as int, id),
                ..m.with_peer(id, |p: PeerModel| p.sub_sent(1))
            };
            lemma_dispatch_hash(next, next.peers.len(), now);
        },
        MessageModel::ExtensionHandshake { extensions, client, metadata_size, .. } => {
            if let Some(size) = metadata_size {
                let told = m.with_peer(
                    id,
                    |p: PeerModel| p.receive_extension_handshake(client, extensions),
                );
                let next = TorrentModel {
                    metadata: piece::fresh(
                        m.metadata.index,
                        m.metadata.block_size,
                        size,
                        m.metadata.hash,
                        false,
                    ),
                    ..told
                };
                lemma_dispatch_hash(next, next.peers.len(), now);
            }
        },
        _ => {},
    }
}

} // verus!
