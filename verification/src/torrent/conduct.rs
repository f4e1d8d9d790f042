//! What may be expected of a torrent's conduct: whom it tries and how often, what
//! it makes of connections that come and go, and how it comes by its metadata.

use crate::assoc;
use crate::digest;
use crate::metainfo;
use crate::number;
use crate::proto::bit_torrent::MessageModel;
use crate::proto::metadata::MetadataModel;
use crate::proto::pex::PEXModel;
use crate::torrent;
use crate::torrent::control::PeerProgressView;
use crate::torrent::laws;
use crate::torrent::model;
use crate::torrent::model::{
    ActionModel, AttemptModel, BacklogModel, DiscoveryMechanism, EventModel, TorrentModel,
};
use crate::torrent::peer;
use crate::torrent::peer::{PeerModel, StateModel};
use crate::torrent::piece;
use crate::torrent::piece::{Block, PieceModel};
use crate::torrent::transfer::asking;
use crate::torrent::transfer::dealing;
use crate::torrent::transfer::laws as transfer_laws;
use crate::torrent::transfer::model as transfer_model;
use crate::torrent::transfer::model::TransferModel;
use crate::types;
use crate::types::{EndpointView, PeerId, PeerInfoView, Sha1Hash};
use vstd::prelude::*;

verus! {

/// Two records are of one peer where they share an identity or an endpoint: with
/// either the one is found by the other, and each by itself if it has any.
pub proof fn law_same_peer(a: PeerInfoView, b: PeerInfoView, e: EndpointView)
    ensures
        types::same_peer(a, b) == types::same_peer(b, a),
        a.id is Some && a.id == b.id ==> types::same_peer(a, b),
        a.endpoints.contains(e) && b.endpoints.contains(e) ==> types::same_peer(a, b),
        a.id is Some || a.endpoints.len() > 0 ==> types::same_peer(a, a),
        (a.id is None || a.id != b.id) && (forall|x: EndpointView|
            !(#[trigger] a.endpoints.contains(x) && b.endpoints.contains(x))) ==> !types::same_peer(
            a,
            b,
        ),
{
    if types::same_peer(a, b) && !(a.id is Some && a.id == b.id) {
        let (i, j) = choose|i: int, j: int|
            0 <= i < a.endpoints.len() && 0 <= j < b.endpoints.len() && #[trigger] a.endpoints[i]
                == #[trigger] b.endpoints[j];
        assert(b.endpoints[j] == a.endpoints[i]);
        assert(a.endpoints.contains(a.endpoints[i]) && b.endpoints.contains(a.endpoints[i]));
    }
    if types::same_peer(b, a) && !(a.id is Some && a.id == b.id) {
        let (i, j) = choose|i: int, j: int|
            0 <= i < b.endpoints.len() && 0 <= j < a.endpoints.len() && #[trigger] b.endpoints[i]
                == #[trigger] a.endpoints[j];
        assert(a.endpoints[j] == b.endpoints[i]);
    }
    if a.endpoints.contains(e) && b.endpoints.contains(e) {
        let i = choose|i: int| 0 <= i < a.endpoints.len() && a.endpoints[i] == e;
        let j = choose|j: int| 0 <= j < b.endpoints.len() && b.endpoints[j] == e;
        assert(a.endpoints[i] == b.endpoints[j]);
    }
    if a.endpoints.len() > 0 {
        assert(a.endpoints[0] == a.endpoints[0]);
    }
}

/// One record out of two knows what either knows of endpoints, and nothing else;
/// what came first stays first, and the identity that was known stays.
pub proof fn law_merged(a: PeerInfoView, b: PeerInfoView, e: EndpointView)
    ensures
        types::merged(a, b).endpoints.contains(e) <==> a.endpoints.contains(e)
            || b.endpoints.contains(e),
        types::merged(a, b).endpoints.len() >= a.endpoints.len(),
        types::merged(a, b).endpoints.take(a.endpoints.len() as int) == a.endpoints,
        a.id is Some ==> types::merged(a, b).id == a.id,
        a.id is None ==> types::merged(a, b).id == b.id,
{
    lemma_merged(a.endpoints, b.endpoints, e);
}

proof fn lemma_merged(known: Seq<EndpointView>, other: Seq<EndpointView>, e: EndpointView)
    ensures
        types::merged_endpoints(known, other).contains(e) <==> known.contains(e) || other.contains(
            e,
        ),
        types::merged_endpoints(known, other).len() >= known.len(),
        types::merged_endpoints(known, other).take(known.len() as int) == known,
    decreases other.len(),
{
    let after = types::merged_endpoints(known, other);
    if other.len() == 0 {
        assert(known.take(known.len() as int) =~= known);
    } else {
        let rest = other.drop_last();
        let last = other.last();
        let before = types::merged_endpoints(known, rest);
        lemma_merged(known, rest, e);
        lemma_merged(known, rest, last);
        assert(other.contains(e) <==> rest.contains(e) || last == e) by {
            if other.contains(e) {
                let i = choose|i: int| 0 <= i < other.len() && other[i] == e;
                if i < rest.len() {
                    assert(rest[i] == e);
                }
            }
            if rest.contains(e) {
                let i = choose|i: int| 0 <= i < rest.len() && rest[i] == e;
                assert(other[i] == e);
            }
            assert(other[other.len() - 1] == last);
        }
        if before.contains(last) {
        } else {
            assert(after == before.push(last));
            assert(after.contains(e) <==> before.contains(e) || last == e) by {
                if after.contains(e) {
                    let i = choose|i: int| 0 <= i < after.len() && after[i] == e;
                    if i < before.len() {
                        assert(before[i] == e);
                    }
                }
                if before.contains(e) {
                    let i = choose|i: int| 0 <= i < before.len() && before[i] == e;
                    assert(after[i] == e);
                }
                assert(after[before.len() as int] == last);
            }
            assert(after.take(known.len() as int) =~= before.take(known.len() as int));
        }
    }
}

/// No peer and no attempt is the same as `info`.
pub open spec fn unheard_of(m: TorrentModel, info: PeerInfoView) -> bool {
    &&& forall|i: int|
        0 <= i < m.peers.len() ==> !types::same_peer((#[trigger] m.peers[i]).1.info, info)
    &&& forall|i: int|
        0 <= i < m.attempts.len() ==> !types::same_peer((#[trigger] m.attempts[i]).info, info)
}

/// A peer that nothing was heard of is tried at once, and one that did not let
/// itself be reached is tried again, up to three times in all. Then it is not
/// tried any more, and neither is one that is known.
pub proof fn law_tries(m: TorrentModel, info: PeerInfoView, mechanism: DiscoveryMechanism, k: int)
    requires
        laws::attempts_ok(m.attempts),
    ensures
        ({
            let next = m.discover(info, mechanism);
            let known = exists|i: int|
                0 <= i < m.peers.len() && types::same_peer((#[trigger] m.peers[i]).1.info, info);
            &&& next.peers == m.peers && next.transfer == m.transfer && next.metadata == m.metadata
            &&& known ==> next == m
            &&& unheard_of(m, info) ==> {
                &&& next.connects == m.connects.push((info, None))
                &&& next.attempts == m.attempts.push(
                    AttemptModel { info, num_attempts: 1, mechanism },
                )
            }
            &&& !known && 0 <= k < m.attempts.len() && types::same_peer(m.attempts[k].info, info)
                && (forall|j: int|
                0 <= j < k ==> !types::same_peer((#[trigger] m.attempts[j]).info, info)) ==> {
                &&& m.attempts[k].num_attempts < 3 ==> {
                    &&& next.connects == m.connects.push((info, None))
                    &&& next.attempts.len() == m.attempts.len()
                    &&& next.attempts[k].num_attempts == m.attempts[k].num_attempts + 1
                    &&& next.attempts[k].info == m.attempts[k].info
                }
                &&& m.attempts[k].num_attempts >= 3 ==> {
                    &&& next.connects == m.connects
                    &&& forall|a: AttemptModel| #[trigger]
                        next.attempts.contains(a) <==> m.attempts.contains(a) && a.info != info
                }
            }
        }),
{
    lemma_first(m.attempts, info, 0);
    lemma_without(m.attempts, info);
    if unheard_of(m, info) {
        assert(!model::knows(m.peers, info));
    }
    if 0 <= k < m.attempts.len() && types::same_peer(m.attempts[k].info, info) && (forall|j: int|
        0 <= j < k ==> !types::same_peer((#[trigger] m.attempts[j]).info, info)) {
        let f = model::first_attempt(m.attempts, info, 0);
        if f < k {
            assert(!types::same_peer(m.attempts[f].info, info));
        }
    }
}

proof fn lemma_first(attempts: Seq<AttemptModel>, info: PeerInfoView, i: int)
    requires
        0 <= i <= attempts.len(),
    ensures
        ({
            let f = model::first_attempt(attempts, info, i);
            &&& i <= f <= attempts.len()
            &&& f < attempts.len() ==> types::same_peer(attempts[f].info, info)
            &&& forall|j: int|
                i <= j < f ==> !types::same_peer((#[trigger] attempts[j]).info, info)
        }),
    decreases attempts.len() - i,
{
    if i < attempts.len() && !types::same_peer(attempts[i].info, info) {
        lemma_first(attempts, info, i + 1);
    }
}

proof fn lemma_without(attempts: Seq<AttemptModel>, info: PeerInfoView)
    ensures
        forall|a: AttemptModel| #[trigger]
            model::without(attempts, info).contains(a) <==> attempts.contains(a) && a.info != info,
    decreases attempts.len(),
{
    if attempts.len() > 0 {
        let rest = attempts.drop_last();
        let before = model::without(rest, info);
        let after = model::without(attempts, info);
        lemma_without(rest, info);
        assert forall|a: AttemptModel| #[trigger] after.contains(a) <==> attempts.contains(a)
            && a.info != info by {
            if after.contains(a) {
                let i = choose|i: int| 0 <= i < after.len() && after[i] == a;
                if i < before.len() {
                    assert(before[i] == a);
                    assert(before.contains(a));
                    assert(rest.contains(a));
                    let j = choose|j: int| 0 <= j < rest.len() && rest[j] == a;
                    assert(attempts[j] == a);
                } else {
                    assert(attempts[attempts.len() - 1] == a);
                }
            }
            if attempts.contains(a) && a.info != info {
                let i = choose|i: int| 0 <= i < attempts.len() && attempts[i] == a;
                if i < rest.len() {
                    assert(rest[i] == a);
                    assert(before.contains(a));
                    let j = choose|j: int| 0 <= j < before.len() && before[j] == a;
                    assert(after[j] == a);
                } else {
                    assert(after[before.len() as int] == a);
                }
            }
        }
    }
}

/// Of a list of peers that nothing was heard of, each is tried, in order,
/// whether a tracker or a peer tells of them. Peers that are said to be gone
/// are not.
pub proof fn law_all_tried(
    m: TorrentModel,
    infos: Seq<PeerInfoView>,
    gone: Seq<PeerInfoView>,
    from: PeerId,
    now: u64,
)
    requires
        forall|i: int| 0 <= i < infos.len() ==> unheard_of(m, #[trigger] infos[i]),
        forall|i: int, j: int|
            0 <= i < j < infos.len() ==> !types::same_peer(
                #[trigger] infos[i],
                #[trigger] infos[j],
            ),
        assoc::has_key(m.peers, from),
    ensures
        ({
            let tries = m.connects + infos.map_values(
                |info: PeerInfoView| (info, None::<PeerId>),
            );
            let noted = |mechanism: DiscoveryMechanism|
                m.attempts + infos.map_values(
                    |info: PeerInfoView| AttemptModel { info, num_attempts: 1, mechanism },
                );
            &&& m.handle(EventModel::Tracker(infos), now) matches Ok((next, ActionModel::Nothing))
                && next.connects == tries && next.peers == m.peers && next.attempts == noted(
                DiscoveryMechanism::Tracker,
            )
            &&& m.handle(
                EventModel::Message(
                    from,
                    MessageModel::PEX(PEXModel { added: infos, dropped: gone }),
                ),
                now,
            ) matches Ok((next, ActionModel::Nothing)) && next.connects == tries && next.peers
                == m.peers && next.attempts == noted(DiscoveryMechanism::PEX)
        }),
{
    lemma_all_tried(m, infos, DiscoveryMechanism::Tracker);
    lemma_all_tried(m, infos, DiscoveryMechanism::PEX);
}

proof fn lemma_all_tried(m: TorrentModel, infos: Seq<PeerInfoView>, mechanism: DiscoveryMechanism)
    requires
        forall|i: int| 0 <= i < infos.len() ==> unheard_of(m, #[trigger] infos[i]),
        forall|i: int, j: int|
            0 <= i < j < infos.len() ==> !types::same_peer(
                #[trigger] infos[i],
                #[trigger] infos[j],
            ),
    ensures
        ({
            let next = m.discover_all(infos, mechanism);
            &&& next.connects == m.connects + infos.map_values(
                |info: PeerInfoView| (info, None::<PeerId>),
            )
            &&& next.peers == m.peers
            &&& next.attempts == m.attempts + infos.map_values(
                |info: PeerInfoView| AttemptModel { info, num_attempts: 1, mechanism },
            )
        }),
    decreases infos.len(),
{
    let f = |info: PeerInfoView| (info, None::<PeerId>);
    let g = |info: PeerInfoView| AttemptModel { info, num_attempts: 1, mechanism };
    let next = m.discover_all(infos, mechanism);
    if infos.len() == 0 {
        assert(next.connects =~= m.connects + infos.map_values(f));
        assert(next.attempts =~= m.attempts + infos.map_values(g));
    } else {
        let rest = infos.drop_last();
        let last = infos.last();
        assert forall|i: int| 0 <= i < rest.len() implies unheard_of(m, #[trigger] rest[i]) by {
            assert(rest[i] == infos[i]);
        }
        lemma_all_tried(m, rest, mechanism);
        let before = m.discover_all(rest, mechanism);
        assert(unheard_of(m, infos[infos.len() - 1]));
        assert(unheard_of(before, last)) by {
            assert forall|i: int| 0 <= i < before.attempts.len() implies !types::same_peer(
                (#[trigger] before.attempts[i]).info,
                last,
            ) by {
                if i < m.attempts.len() {
                    assert(before.attempts[i] == m.attempts[i]);
                } else {
                    let j = i - m.attempts.len();
                    assert(before.attempts[i].info == infos[j]);
                    assert(!types::same_peer(infos[j], infos[infos.len() - 1]));
                }
            }
        }
        lemma_first(before.attempts, last, 0);
        assert(!model::knows(before.peers, last));
        assert(next.connects =~= m.connects + infos.map_values(f));
        assert(next.attempts =~= m.attempts + infos.map_values(g));
    }
}

/// A peer that lets itself be connected to is known from then on, under the
/// identity that it shook hands with: nothing more is heard of it as a stranger,
/// it is connected, and it joins the transfer if there is one. If it was known by
/// another record the two become one.
pub proof fn law_connected(
    m: TorrentModel,
    id: PeerId,
    supports_fast: bool,
    supports_dht: bool,
    info: PeerInfoView,
    now: u64,
)
    requires
        m.wf(),
    ensures
        m.handle(
            EventModel::Connection { id, supports_fast, supports_dht, info, known_id: None },
            now,
        ) matches Ok((next, ActionModel::Nothing)) && {
            let found = PeerInfoView { id: Some(id), ..info };
            let stranger = forall|i: int|
                0 <= i < m.peers.len() ==> !types::same_peer(
                    (#[trigger] m.peers[i]).1.info,
                    found,
                );
            &&& stranger && !assoc::has_key(m.peers, id) ==> {
                &&& next.peers.len() == m.peers.len() + 1
                &&& next.peers.last().0 == id
                &&& next.peers.drop_last() == m.peers
                &&& next.peers.last().1.info == found
                &&& next.peers.last().1.state is Connected
                &&& next.peers.last().1.supports_fast == supports_fast
                &&& next.peers.last().1.supports_dht == supports_dht
                &&& next.peers.last().1.sent_metadata_requests == 0
                &&& next.peers.last().1.outbox.len() == 0
            }
            &&& !stranger ==> next.peers.len() == m.peers.len()
            &&& forall|a: AttemptModel| #[trigger]
                next.attempts.contains(a) <==> m.attempts.contains(a) && a.info != info
            &&& m.transfer is None ==> next.transfer is None
            &&& m.transfer matches Some(t) ==> next.transfer == Some(
                t.add_connection(id, supports_fast),
            )
            &&& next.shown.num_peers == next.peers.len()
        },
{
    let found = PeerInfoView { id: Some(id), ..info };
    lemma_without(m.attempts, info);
    lemma_first_known(m.peers, found, 0);
    let next = m.handle_connection(id, supports_fast, supports_dht, info, None);
    if !assoc::has_key(m.peers, id) {
        assert(next.peers.len() == m.peers.len() + 1 ==> next.peers.drop_last() =~= m.peers);
    }
}

proof fn lemma_first_known(peers: Seq<(PeerId, PeerModel)>, info: PeerInfoView, i: int)
    requires
        0 <= i <= peers.len(),
    ensures
        ({
            let f = model::first_known(peers, info, i);
            &&& i <= f <= peers.len()
            &&& f < peers.len() ==> types::same_peer(peers[f].1.info, info)
            &&& forall|j: int|
                i <= j < f ==> !types::same_peer((#[trigger] peers[j]).1.info, info)
        }),
    decreases peers.len() - i,
{
    if i < peers.len() && !types::same_peer(peers[i].1.info, info) {
        lemma_first_known(peers, info, i + 1);
    }
}

/// The peer with an identity stands at `i`.
pub open spec fn stands_at(m: TorrentModel, i: int, id: PeerId) -> bool {
    0 <= i < m.peers.len() && m.peers[i].0 == id
}

proof fn lemma_stands(m: TorrentModel, i: int, id: PeerId)
    requires
        m.wf(),
        stands_at(m, i, id),
    ensures
        assoc::has_key(m.peers, id),
        assoc::index_of(m.peers, id) == i,
{
    assert(assoc::key_at(m.peers, i, id));
    assoc::lemma_index_unique(m.peers, i, id);
}

/// The time for a reconnection has come: the peer is not connected, was not for
/// longer than the time that is waited for, and none is under way.
pub open spec fn due(p: PeerModel, now: u64) -> bool {
    p.state matches StateModel::Disconnected { at, interval, reconnecting } && !reconnecting
        && now > at + interval
}

/// A peer whose connection is lost is tried again after five seconds, not before.
/// The error is kept, and the transfer is done with the peer.
pub proof fn law_lost(m: TorrentModel, id: PeerId, error: Seq<char>, now: u64, later: u64, i: int)
    requires
        m.wf(),
        stands_at(m, i, id),
    ensures
        m.handle(EventModel::Disconnection(id, error), now) matches Ok(
            (next, ActionModel::Nothing),
        ) && {
            &&& due(next.peers[i].1, later) <==> later > now + 5_000
            &&& next.peers[i].1.errors == m.peers[i].1.errors.push(error)
            &&& next.peers[i].1.info == m.peers[i].1.info
            &&& next.peers.len() == m.peers.len()
            &&& forall|j: int|
                0 <= j < m.peers.len() && j != i ==> #[trigger] next.peers[j] == m.peers[j]
            &&& m.transfer matches Some(t) ==> next.transfer == Some(t.sever(id))
        },
{
    lemma_stands(m, i, id);
}

/// A reconnection that fails is made again after twice the time, and one that
/// succeeds leaves the peer connected, with nothing kept of before.
pub proof fn law_reconnection(
    m: TorrentModel,
    id: PeerId,
    info: PeerInfoView,
    supports_fast: bool,
    supports_dht: bool,
    now: u64,
    later: u64,
    i: int,
)
    requires
        m.wf(),
        stands_at(m, i, id),
        m.peers[i].1.state is Disconnected,
    ensures
        m.handle(EventModel::ConnectionFailure(info, Some(id)), now) matches Ok(
            (next, ActionModel::Nothing),
        ) && (m.peers[i].1.state->interval <= u64::MAX / 2 ==> (due(next.peers[i].1, later)
            <==> later > now + 2 * m.peers[i].1.state->interval)),
        m.handle(
            EventModel::Connection {
                id,
                supports_fast,
                supports_dht,
                info,
                known_id: Some(id),
            },
            now,
        ) matches Ok((next, ActionModel::Nothing)) && {
            &&& next.peers[i].1.state matches StateModel::Connected { initial_transfer_messages }
                && initial_transfer_messages.len() == 0
            &&& next.peers[i].1.info == m.peers[i].1.info
            &&& next.peers.len() == m.peers.len()
            &&& next.attempts == m.attempts
        },
{
    lemma_stands(m, i, id);
    lemma_discover_peers(m, info);
}

proof fn lemma_discover_peers(m: TorrentModel, info: PeerInfoView)
    ensures
        m.discover(info, DiscoveryMechanism::Tracker).peers == m.peers,
{
}

/// A connection that is to be made is to one of the first `n` peers that it is
/// time for.
pub open spec fn some_due(
    peers: Seq<(PeerId, PeerModel)>,
    n: int,
    now: u64,
    connect: (PeerInfoView, Option<PeerId>),
) -> bool {
    exists|j: int|
        0 <= j < n && due((#[trigger] peers[j]).1, now) && connect == (
            peers[j].1.info,
            peers[j].1.info.id,
        )
}

/// Once a second a reconnection begins to each peer that it is time for, under
/// the record and the identity that it is known by, and to no other; while it is
/// under way none other begins.
pub proof fn law_reconnections_begin(m: TorrentModel, now: u64, later: u64, i: int)
    requires
        0 <= i < m.peers.len(),
    ensures
        ({
            let next = m.reconnect(now);
            let p = m.peers[i].1;
            &&& next.peers.len() == m.peers.len()
            &&& next.peers[i].0 == m.peers[i].0
            &&& due(p, now) ==> !due(next.peers[i].1, later) && next.connects.skip(
                m.connects.len() as int,
            ).contains((p.info, p.info.id))
            &&& !due(p, now) ==> next.peers[i] == m.peers[i]
            &&& next.connects.len() >= m.connects.len()
            &&& next.connects.take(m.connects.len() as int) == m.connects
            &&& forall|c: int|
                m.connects.len() <= c < next.connects.len() ==> some_due(
                    m.peers,
                    m.peers.len() as int,
                    now,
                    #[trigger] next.connects[c],
                )
        }),
{
    let list = model::due_upto(m.peers, m.peers.len(), now);
    let next = m.reconnect(now);
    lemma_due(m.peers, m.peers.len(), now);
    assert(next.connects.take(m.connects.len() as int) =~= m.connects);
    assert(next.connects.skip(m.connects.len() as int) =~= list);
    if due(m.peers[i].1, now) {
        assert(list.contains((m.peers[i].1.info, m.peers[i].1.info.id)));
    }
    assert forall|c: int| m.connects.len() <= c < next.connects.len() implies some_due(
        m.peers,
        m.peers.len() as int,
        now,
        #[trigger] next.connects[c],
    ) by {
        assert(next.connects[c] == list[c - m.connects.len()]);
    }
}

proof fn lemma_due(peers: Seq<(PeerId, PeerModel)>, n: nat, now: u64)
    requires
        n <= peers.len(),
    ensures
        ({
            let list = model::due_upto(peers, n, now);
            &&& forall|i: int|
                0 <= i < n && due((#[trigger] peers[i]).1, now) ==> list.contains(
                    (peers[i].1.info, peers[i].1.info.id),
                )
            &&& forall|c: int|
                0 <= c < list.len() ==> some_due(peers, n as int, now, #[trigger] list[c])
        }),
    decreases n,
{
    if n > 0 {
        let before = model::due_upto(peers, (n - 1) as nat, now);
        let list = model::due_upto(peers, n, now);
        lemma_due(peers, (n - 1) as nat, now);
        assert forall|i: int| 0 <= i < n && due((#[trigger] peers[i]).1, now) implies list.contains(
            (peers[i].1.info, peers[i].1.info.id),
        ) by {
            let x = (peers[i].1.info, peers[i].1.info.id);
            if i < n - 1 {
                assert(before.contains(x));
                let c = choose|c: int| 0 <= c < before.len() && before[c] == x;
                assert(list[c] == x);
            } else {
                assert(list[before.len() as int] == x);
            }
        }
        assert forall|c: int| 0 <= c < list.len() implies some_due(
            peers,
            n as int,
            now,
            #[trigger] list[c],
        ) by {
            if c < before.len() {
                assert(list[c] == before[c]);
                assert(some_due(peers, n - 1, now, before[c]));
                let j = choose|j: int|
                    0 <= j < n - 1 && due((#[trigger] peers[j]).1, now) && before[c] == (
                        peers[j].1.info,
                        peers[j].1.info.id,
                    );
                assert(due(peers[j].1, now));
            } else {
                assert(due(peers[n - 1].1, now));
            }
        }
    }
}

/// A peer's request for metadata is answered with the block that it asks for, as
/// far as the metadata goes, or with a refusal where that block is not there. It
/// gets no answer while nothing is known of the metadata.
pub proof fn law_metadata_served(m: TorrentModel, id: PeerId, index: usize, now: u64, i: int)
    requires
        m.wf(),
        stands_at(m, i, id),
    ensures
        m.handle_metadata(MetadataModel::Request { index }, id, now) matches Ok(
            (next, ActionModel::Nothing),
        ) && {
            let before = m.peers[i].1;
            let after = next.peers[i].1;
            let there = index < m.metadata.blocks.len() && m.metadata.blocks[index as int]
                == Block::Obtained && m.metadata.data.len() == m.metadata.length;
            &&& next.metadata == m.metadata && next.transfer == m.transfer
            &&& m.metadata.blocks.len() == 0 ==> next == m
            &&& m.metadata.blocks.len() > 0 && !there ==> after.outbox == before.outbox.push(
                MessageModel::Metadata(MetadataModel::Reject { index }),
            )
            &&& there ==> {
                &&& after.outbox.len() == before.outbox.len() + 1
                &&& after.outbox.drop_last() == before.outbox
                &&& after.outbox.last() matches MessageModel::Metadata(
                    MetadataModel::Data { index: sent, piece, total_size },
                ) && {
                    &&& sent == index
                    &&& total_size == m.metadata.blocks.len()
                    &&& piece.len() > 0
                    &&& piece.len() == 16_384 || 16_384 * index + piece.len()
                        == m.metadata.length && piece.len() < 16_384
                    &&& 16_384 * index + piece.len() <= m.metadata.length
                    &&& forall|x: int|
                        0 <= x < piece.len() ==> #[trigger] piece[x] == m.metadata.data[16_384
                            * index + x]
                }
            }
        },
{
    lemma_stands(m, i, id);
    transfer_laws::lemma_blocks_fit(m.metadata);
    if index < m.metadata.blocks.len() {
        piece::lemma_block_bounds(m.metadata, index as int);
        assert(index * 16_384 == 16_384 * index);
    }
    let next = (m.handle_metadata(MetadataModel::Request { index }, id, now)->Ok_0).0;
    assert(next.peers[i].1.outbox.len() == m.peers[i].1.outbox.len() + 1
        ==> next.peers[i].1.outbox.drop_last() =~= m.peers[i].1.outbox);
}

/// What a peer says of itself is believed: its name, and which extensions it
/// knows. Where it says that the metadata is larger than was thought, by a block
/// or more, the metadata starts over with that size, unless it is complete
/// enough to have started the transfer.
pub proof fn law_introduction(
    m: TorrentModel,
    id: PeerId,
    client: Option<Seq<char>>,
    extensions: Seq<(Seq<char>, u8)>,
    max_requests: Option<usize>,
    metadata_size: Option<usize>,
    now: u64,
    i: int,
)
    requires
        m.wf(),
        stands_at(m, i, id),
    ensures
        m.handle(
            EventModel::Message(
                id,
                MessageModel::ExtensionHandshake { extensions, client, max_requests, metadata_size },
            ),
            now,
        ) matches Ok((next, ActionModel::Nothing)) && {
            let p = next.peers[i].1;
            let larger = m.transfer is None && (metadata_size matches Some(size) && size / 16_384
                > m.metadata.blocks.len());
            &&& next.peers.len() == m.peers.len()
            &&& p.client == client
            &&& p.supports_pex <==> exists|e: int|
                0 <= e < extensions.len() && (#[trigger] extensions[e]).0 == "ut_pex"@
            &&& p.supports_metadata <==> exists|e: int|
                0 <= e < extensions.len() && (#[trigger] extensions[e]).0 == "ut_metadata"@
            &&& next.metadata.length == if larger {
                metadata_size->0
            } else {
                m.metadata.length
            }
            &&& next.metadata.hash == m.metadata.hash
            &&& !larger ==> next.metadata == m.metadata
        },
{
    lemma_stands(m, i, id);
    let told = m.with_peer(id, |p: PeerModel| p.receive_extension_handshake(client, extensions));
    lemma_has_key(extensions, "ut_pex"@);
    lemma_has_key(extensions, "ut_metadata"@);
    assert(told.peers[i].1 == m.peers[i].1.receive_extension_handshake(client, extensions));
    if let Some(size) = metadata_size {
        let start = TorrentModel {
            metadata: piece::fresh(
                m.metadata.index,
                m.metadata.block_size,
                size,
                m.metadata.hash,
                false,
            ),
            ..told
        };
        lemma_metadata_asked(start, start.peers.len(), now);
        assert(keeps_identity(start, start.dispatch(now), i));
    }
}

proof fn lemma_has_key(s: Seq<(Seq<char>, u8)>, key: Seq<char>)
    ensures
        assoc::has_key(s, key) <==> exists|e: int| 0 <= e < s.len() && (#[trigger] s[e]).0 == key,
{
    if assoc::has_key(s, key) {
        let i = assoc::index_of(s, key);
        assert(assoc::key_at(s, i, key));
        assert(s[i].0 == key);
    }
    if exists|e: int| 0 <= e < s.len() && (#[trigger] s[e]).0 == key {
        let e = choose|e: int| 0 <= e < s.len() && (#[trigger] s[e]).0 == key;
        assert(assoc::key_at(s, e, key));
    }
}

/// What asking for metadata leaves of a peer as it was.
pub open spec fn keeps_identity(m: TorrentModel, next: TorrentModel, i: int) -> bool {
    let p = m.peers[i].1;
    let q = next.peers[i].1;
    &&& next.peers[i].0 == m.peers[i].0
    &&& q == (PeerModel {
        sent_metadata_requests: q.sent_metadata_requests,
        outbox: q.outbox,
        ..p
    })
    &&& q.outbox.len() - p.outbox.len() == q.sent_metadata_requests - p.sent_metadata_requests >= 0
    &&& q.outbox.take(p.outbox.len() as int) == p.outbox
}

/// A message asks peer `i` for a block of metadata that nobody was asked for
/// before, that the peer has not refused and that is asked of it now.
pub open spec fn right_request(
    m: TorrentModel,
    next: TorrentModel,
    i: int,
    message: MessageModel,
    now: u64,
) -> bool {
    message matches MessageModel::Metadata(MetadataModel::Request { index }) && {
        &&& asking::open_to(m.metadata, index as int, m.peers[i].0)
        &&& next.metadata.blocks[index as int] == (Block::Requested {
            peer: m.peers[i].0,
            since: now,
        })
    }
}

/// What asking for metadata does to peer `i`: only one that is connected and
/// knows of metadata is asked, for no more than four blocks at a time, and each
/// request is right.
pub open spec fn peer_follows(m: TorrentModel, next: TorrentModel, i: int, now: u64) -> bool {
    let p = m.peers[i].1;
    let q = next.peers[i].1;
    &&& keeps_identity(m, next, i)
    &&& q.sent_metadata_requests > p.sent_metadata_requests ==> p.state is Connected
        && p.supports_metadata && q.sent_metadata_requests <= 4
    &&& forall|x: int|
        p.outbox.len() <= x < q.outbox.len() ==> right_request(
            m,
            next,
            i,
            #[trigger] q.outbox[x],
            now,
        )
}

/// What asking for metadata does, and all that it does.
pub open spec fn only_asks(m: TorrentModel, next: TorrentModel, now: u64) -> bool {
    &&& next == (TorrentModel { peers: next.peers, metadata: next.metadata, ..m })
    &&& next.metadata == (PieceModel { blocks: next.metadata.blocks, ..m.metadata })
    &&& next.peers.len() == m.peers.len()
    &&& next.metadata.blocks.len() == m.metadata.blocks.len()
    &&& forall|k: int|
        0 <= k < m.metadata.blocks.len() ==> (#[trigger] next.metadata.blocks[k])
            == m.metadata.blocks[k] || m.metadata.blocks[k] == Block::Free
            && next.metadata.blocks[k] is Requested
    &&& forall|i: int| 0 <= i < m.peers.len() ==> #[trigger] peer_follows(m, next, i, now)
}

/// There is no more metadata to ask of peer `i`.
pub open spec fn nothing_more(m: TorrentModel, i: int) -> bool {
    let (id, p) = m.peers[i];
    ||| !(p.state is Connected)
    ||| !p.supports_metadata
    ||| p.sent_metadata_requests >= 4
    ||| forall|k: int| !#[trigger] asking::open_to(m.metadata, k, id)
}

proof fn lemma_asks_nothing(m: TorrentModel, now: u64)
    ensures
        only_asks(m, m, now),
{
    assert forall|i: int| 0 <= i < m.peers.len() implies #[trigger] peer_follows(m, m, i, now) by {
        let p = m.peers[i].1;
        assert(p.outbox.take(p.outbox.len() as int) =~= p.outbox);
    }
}

proof fn lemma_asks_twice(a: TorrentModel, b: TorrentModel, c: TorrentModel, now: u64)
    requires
        only_asks(a, b, now),
        only_asks(b, c, now),
    ensures
        only_asks(a, c, now),
{
    assert forall|k: int| 0 <= k < a.metadata.blocks.len() implies (
    #[trigger] c.metadata.blocks[k]) == a.metadata.blocks[k] || a.metadata.blocks[k] == Block::Free
        && c.metadata.blocks[k] is Requested by {
        assert(b.metadata.blocks[k] == a.metadata.blocks[k] || a.metadata.blocks[k] == Block::Free
            && b.metadata.blocks[k] is Requested);
    }
    assert forall|i: int| 0 <= i < a.peers.len() implies #[trigger] peer_follows(a, c, i, now) by {
        assert(peer_follows(a, b, i, now));
        assert(peer_follows(b, c, i, now));
        let x = a.peers[i].1;
        let y = b.peers[i].1;
        let z = c.peers[i].1;
        assert(z.outbox.take(x.outbox.len() as int) =~= x.outbox) by {
            assert(z.outbox.take(y.outbox.len() as int).take(x.outbox.len() as int)
                =~= z.outbox.take(x.outbox.len() as int));
        }
        assert forall|n: int| x.outbox.len() <= n < z.outbox.len() implies right_request(
            a,
            c,
            i,
            #[trigger] z.outbox[n],
            now,
        ) by {
            if n < y.outbox.len() {
                assert(z.outbox.take(y.outbox.len() as int)[n] == y.outbox[n]);
                assert(right_request(a, b, i, y.outbox[n], now));
                if let MessageModel::Metadata(MetadataModel::Request { index }) = y.outbox[n] {
                    assert(c.metadata.blocks[index as int] == b.metadata.blocks[index as int]);
                }
            } else {
                assert(right_request(b, c, i, z.outbox[n], now));
                if let MessageModel::Metadata(MetadataModel::Request { index }) = z.outbox[n] {
                    assert(b.metadata.blocks[index as int] == a.metadata.blocks[index as int]);
                }
            }
        }
    }
}

proof fn lemma_one_asked(m: TorrentModel, i: int, now: u64)
    requires
        m.metadata.blocks.len() <= usize::MAX,
    ensures
        only_asks(m, m.dispatch_one(i, now), now),
        0 <= i < m.peers.len() ==> nothing_more(m.dispatch_one(i, now), i),
        forall|j: int|
            0 <= j < m.peers.len() && j != i ==> #[trigger] m.dispatch_one(i, now).peers[j]
                == m.peers[j],
    decreases
            (if 0 <= i < m.peers.len() {
                peer::MAX_METADATA_REQUESTS - m.peers[i].1.sent_metadata_requests
            } else {
                0
            }),
{
    lemma_asks_nothing(m, now);
    if 0 <= i < m.peers.len() && m.peers[i].1.can_request_metadata() {
        let id = m.peers[i].0;
        asking::law_block_choice(m.metadata, id);
        if let Some(block) = m.metadata.first_free(id) {
            let next = m.request_metadata(i, block, now);
            assert(only_asks(m, next, now)) by {
                assert forall|j: int| 0 <= j < m.peers.len() implies #[trigger] peer_follows(
                    m,
                    next,
                    j,
                    now,
                ) by {
                    assert(next.peers[j].1.outbox.take(m.peers[j].1.outbox.len() as int)
                        =~= m.peers[j].1.outbox);
                }
            }
            lemma_one_asked(next, i, now);
            lemma_asks_twice(m, next, m.dispatch_one(i, now), now);
        }
    }
}

proof fn lemma_metadata_asked(m: TorrentModel, n: nat, now: u64)
    requires
        m.metadata.blocks.len() <= usize::MAX,
        n <= m.peers.len(),
    ensures
        only_asks(m, m.dispatch_upto(n, now), now),
        forall|i: int| 0 <= i < n ==> #[trigger] nothing_more(m.dispatch_upto(n, now), i),
        forall|i: int| 0 <= i < m.peers.len() ==> #[trigger] keeps_identity(m, m.dispatch_upto(n, now), i),
    decreases n,
{
    lemma_asks_nothing(m, now);
    if n > 0 {
        let before = m.dispatch_upto((n - 1) as nat, now);
        let next = m.dispatch_upto(n, now);
        lemma_metadata_asked(m, (n - 1) as nat, now);
        lemma_one_asked(before, n - 1, now);
        lemma_asks_twice(m, before, next, now);
        assert forall|i: int| 0 <= i < n implies #[trigger] nothing_more(next, i) by {
            if i < n - 1 {
                assert(nothing_more(before, i));
                assert(next.peers[i] == before.peers[i]);
                let id = before.peers[i].0;
                if forall|k: int| !#[trigger] asking::open_to(before.metadata, k, id) {
                    assert forall|k: int| !#[trigger] asking::open_to(next.metadata, k, id) by {
                        assert(!asking::open_to(before.metadata, k, id));
                        if asking::open_to(next.metadata, k, id) {
                            assert(next.metadata.blocks[k] == before.metadata.blocks[k]);
                        }
                    }
                }
            }
        }
    }
    assert forall|i: int| 0 <= i < m.peers.len() implies #[trigger] keeps_identity(
        m,
        m.dispatch_upto(n, now),
        i,
    ) by {
        assert(peer_follows(m, m.dispatch_upto(n, now), i, now));
    }
}

/// Metadata is asked for rightly: of connected peers that know of it, each block
/// of one peer at a time and of none that refused it, and at most four blocks of
/// a peer at once. Nothing else changes. And none is held back: where a peer may
/// be asked for more, there is nothing to ask it for.
pub proof fn law_metadata_asked(m: TorrentModel, now: u64)
    requires
        m.metadata.wf(),
    ensures
        only_asks(m, m.dispatch(now), now),
        forall|i: int| 0 <= i < m.peers.len() ==> #[trigger] nothing_more(m.dispatch(now), i),
{
    transfer_laws::lemma_blocks_fit(m.metadata);
    lemma_metadata_asked(m, m.peers.len(), now);
}

/// A message for the transfer that comes before it has started is kept, behind
/// those that came before it.
pub proof fn law_messages_kept(
    m: TorrentModel,
    id: PeerId,
    message: MessageModel,
    now: u64,
    i: int,
    kept: Seq<MessageModel>,
)
    requires
        m.wf(),
        stands_at(m, i, id),
        m.transfer is None,
        m.peers[i].1.state == (StateModel::Connected { initial_transfer_messages: kept }),
        message is Bitfield || message is Have || message is HaveAll || message is HaveNone
            || message is Choked || message is Interested || message is Request || message is Piece
            || message is Reject || message is Cancel || message is Suggest || message
            is AllowedFast,
    ensures
        m.handle(EventModel::Message(id, message), now) matches Ok((next, ActionModel::Nothing))
            && next.peers[i].1.state == (StateModel::Connected {
            initial_transfer_messages: kept.push(message),
        }) && next.transfer is None,
{
    lemma_stands(m, i, id);
}

/// When a transfer starts, each connected peer joins it, and what the peer has
/// sent before follows at once and in order.
pub proof fn law_messages_replayed(
    peers: Seq<(PeerId, PeerModel)>,
    i: int,
    kept: Seq<MessageModel>,
) -> (at: int)
    requires
        0 <= i < peers.len(),
        peers[i].1.state == (StateModel::Connected { initial_transfer_messages: kept }),
    ensures
        ({
            let list = model::backlog_upto(peers, peers.len());
            &&& 0 <= at
            &&& at + 1 + kept.len() <= list.len()
            &&& list[at] == (BacklogModel::Connect {
                peer: peers[i].0,
                supports_fast: peers[i].1.supports_fast,
            })
            &&& forall|k: int|
                0 <= k < kept.len() ==> #[trigger] list[at + 1 + k] == (BacklogModel::Message {
                    peer: peers[i].0,
                    message: kept[k],
                })
        }),
{
    let at = model::backlog_upto(peers, i as nat).len() as int;
    lemma_backlog(peers, i + 1, peers.len() as int);
    let upto = model::backlog_upto(peers, (i + 1) as nat);
    let own = model::backlog_of(peers[i].0, peers[i].1);
    assert(upto == model::backlog_upto(peers, i as nat) + own);
    let list = model::backlog_upto(peers, peers.len());
    assert(list[at] == upto[at]);
    assert forall|k: int| 0 <= k < kept.len() implies #[trigger] list[at + 1 + k] == (
    BacklogModel::Message { peer: peers[i].0, message: kept[k] }) by {
        assert(list[at + 1 + k] == upto[at + 1 + k]);
        assert(upto[at + 1 + k] == own[1 + k]);
    }
    at
}

proof fn lemma_backlog(peers: Seq<(PeerId, PeerModel)>, a: int, b: int)
    requires
        0 <= a <= b <= peers.len(),
    ensures
        ({
            let x = model::backlog_upto(peers, a as nat);
            let y = model::backlog_upto(peers, b as nat);
            x.len() <= y.len() && forall|k: int| 0 <= k < x.len() ==> #[trigger] y[k] == x[k]
        }),
    decreases b - a,
{
    if a < b {
        lemma_backlog(peers, a, b - 1);
    }
}

/// How many of the first `n` peers are connected.
pub open spec fn connected_among(peers: Seq<(PeerId, PeerModel)>, n: int) -> nat
    decreases n,
{
    if n <= 0 {
        0
    } else if peers[n - 1].1.state is Connected {
        connected_among(peers, n - 1) + 1
    } else {
        connected_among(peers, n - 1)
    }
}

/// What is shown agrees with what is there: how many peers are known, connected
/// and being tried, and of each peer what it is called and can do.
pub proof fn law_peers_shown(m: TorrentModel, i: int)
    requires
        m.wf(),
        0 <= i < m.peers.len(),
    ensures
        ({
            let shown = m.update_progress().shown;
            let (id, p) = m.peers[i];
            &&& shown.num_peers == m.peers.len()
            &&& shown.num_connected_peers == connected_among(m.peers, m.peers.len() as int)
            &&& shown.num_discovery_attempts == m.attempts.len()
            &&& assoc::lookup(shown.peers, id) matches Some(v) && {
                &&& v.id == id
                &&& v.endpoints == p.info.endpoints
                &&& v.client == p.client
                &&& v.errors == p.errors
                &&& v.supports_fast == p.supports_fast
                &&& v.supports_dht == p.supports_dht
                &&& v.supports_pex == p.supports_pex
                &&& v.supports_metadata == p.supports_metadata
            }
            &&& m.update_progress().peers == m.peers
        }),
{
    lemma_connected(m.peers, m.peers.len() as int);
    assert(m.peers.take(m.peers.len() as int) =~= m.peers);
    lemma_shown(m, m.peers.len(), i);
}

proof fn lemma_connected(peers: Seq<(PeerId, PeerModel)>, n: int)
    requires
        0 <= n <= peers.len(),
    ensures
        model::count_connected(peers.take(n)) == connected_among(peers, n),
    decreases n,
{
    if n > 0 {
        lemma_connected(peers, n - 1);
        assert(peers.take(n).drop_last() =~= peers.take(n - 1));
    }
}

proof fn lemma_shown(m: TorrentModel, n: nat, i: int)
    requires
        m.wf(),
        0 <= i < n <= m.peers.len(),
    ensures
        assoc::distinct_keys(model::shown_upto(m.shown.peers, m.peers, n)),
        ({
            let (id, p) = m.peers[i];
            assoc::lookup(model::shown_upto(m.shown.peers, m.peers, n), id) matches Some(v) && v
                == model::shown_peer(id, p, Some(v))
        }),
    decreases n,
{
    lemma_shown_keys(m, (n - 1) as nat);
    let before = model::shown_upto(m.shown.peers, m.peers, (n - 1) as nat);
    let (last, q) = m.peers[n - 1];
    let new = model::shown_peer(last, q, assoc::lookup(before, last));
    let after = assoc::inserted(before, last, new);
    assoc::lemma_inserted_keys(before, last, new);
    let (id, p) = m.peers[i];
    if i < n - 1 {
        lemma_shown(m, (n - 1) as nat, i);
        assert(id != last);
        let x = assoc::index_of(before, id);
        assert(assoc::key_at(before, x, id));
        if assoc::has_key(before, last) {
            assert(assoc::key_at(before, assoc::index_of(before, last), last));
        }
        assert(assoc::key_at(after, x, id));
        assoc::lemma_index_unique(after, x, id);
        assoc::lemma_index_unique(before, x, id);
    } else {
        if assoc::has_key(before, last) {
            let x = assoc::index_of(before, last);
            assert(assoc::key_at(before, x, last));
            assert(assoc::key_at(after, x, last));
            assoc::lemma_index_unique(after, x, last);
        } else {
            let x = before.len() as int;
            assert(assoc::key_at(after, x, last));
            assoc::lemma_index_unique(after, x, last);
        }
    }
}

proof fn lemma_shown_keys(m: TorrentModel, n: nat)
    requires
        m.wf(),
        n <= m.peers.len(),
    ensures
        assoc::distinct_keys(model::shown_upto(m.shown.peers, m.peers, n)),
    decreases n,
{
    if n > 0 {
        lemma_shown_keys(m, (n - 1) as nat);
        let before = model::shown_upto(m.shown.peers, m.peers, (n - 1) as nat);
        let (id, p) = m.peers[n - 1];
        assoc::lemma_inserted_keys(
            before,
            id,
            model::shown_peer(id, p, assoc::lookup(before, id)),
        );
    }
}

/// A block of metadata that comes is counted for the peer that sent it, and frees
/// the place of the request for it, whomever it was asked of. One that is there
/// already, or that comes when the transfer has started, changes nothing.
pub proof fn law_metadata_counted(
    m: TorrentModel,
    id: PeerId,
    index: usize,
    piece: Seq<u8>,
    total_size: usize,
    now: u64,
    i: int,
)
    requires
        m.wf(),
        stands_at(m, i, id),
    ensures
        ({
            let answer = m.handle_metadata(
                MetadataModel::Data { index, piece, total_size },
                id,
                now,
            );
            let placed = m.place_metadata(index, piece, id);
            let was = m.metadata.blocks[index as int];
            let p = m.peers[i].1;
            let q = placed.peers[i].1;
            &&& m.transfer is Some || index < m.metadata.blocks.len() && was == Block::Obtained
                ==> answer == Ok::<_, model::ErrorModel>((m, ActionModel::Nothing))
            &&& q.downloaded_metadata == p.downloaded_metadata + 1 || p.downloaded_metadata
                >= usize::MAX
            &&& q.uploaded_metadata == p.uploaded_metadata
            &&& index < m.metadata.blocks.len() && (was matches Block::Requested { peer: r, .. }
                && r == id) && p.sent_metadata_requests > 0 ==> q.sent_metadata_requests
                == p.sent_metadata_requests - 1
            &&& placed.metadata == m.metadata.place(index as int, piece, false).0
        }),
{
    lemma_stands(m, i, id);
    let who = m.metadata.asked(index as int);
    let f = |p: PeerModel| p.receive_metadata(who == Some(id));
    let counted = m.with_peer(id, f);
    assert(counted.peers[i].1 == f(m.peers[i].1));
    if who is Some && who != Some(id) {
        let other = who->0;
        if assoc::has_key(counted.peers, other) {
            let j = assoc::index_of(counted.peers, other);
            assert(assoc::key_at(counted.peers, j, other));
            assert(j != i);
        }
    }
}

/// The blocks of metadata that all peers sent this second, or were sent.
pub open spec fn metadata_blocks(peers: Seq<(PeerId, PeerModel)>, came: bool) -> nat
    decreases peers.len(),
{
    if peers.len() == 0 {
        0
    } else {
        metadata_blocks(peers.drop_last(), came) + if came {
            peers.last().1.downloaded_metadata
        } else {
            peers.last().1.uploaded_metadata
        }
    }
}

proof fn lemma_metadata_blocks(peers: Seq<(PeerId, PeerModel)>)
    ensures
        model::sum_downloaded(peers) == metadata_blocks(peers, true),
        model::sum_uploaded(peers) == metadata_blocks(peers, false),
    decreases peers.len(),
{
    if peers.len() > 0 {
        lemma_metadata_blocks(peers.drop_last());
    }
}

/// The speeds at which metadata comes and goes are those of the second that
/// ends, in bytes, and the counting starts over.
pub proof fn law_metadata_speeds(m: TorrentModel, i: int)
    requires
        0 <= i < m.peers.len(),
    ensures
        ({
            let next = m.statistics();
            &&& next.shown.metadata_down_speed == 16_384 * metadata_blocks(m.peers, true)
            &&& next.shown.metadata_up_speed == 16_384 * metadata_blocks(m.peers, false)
            &&& next.peers.len() == m.peers.len()
            &&& next.peers[i].0 == m.peers[i].0
            &&& next.peers[i].1 == (PeerModel {
                uploaded_metadata: 0,
                downloaded_metadata: 0,
                ..m.peers[i].1
            })
            &&& next.attempts == m.attempts && next.connects == m.connects && next.metadata
                == m.metadata
        }),
{
    lemma_metadata_blocks(m.peers);
}

/// How many of the first `n` attempts came about this way.
pub open spec fn attempts_by(
    attempts: Seq<AttemptModel>,
    mechanism: DiscoveryMechanism,
    n: int,
) -> nat
    decreases n,
{
    if n <= 0 {
        0
    } else if attempts[n - 1].mechanism == mechanism {
        attempts_by(attempts, mechanism, n - 1) + 1
    } else {
        attempts_by(attempts, mechanism, n - 1)
    }
}

/// The status says how many peers are being tried that trackers told of, and how
/// many that other peers did.
pub proof fn law_status(attempts: Seq<AttemptModel>)
    ensures
        torrent::status_of(attempts) == "    Discovery attemps:\n        Tracker: "@
            + number::decimal(
            attempts_by(attempts, DiscoveryMechanism::Tracker, attempts.len() as int),
        ) + "\n        PEX: "@ + number::decimal(
            attempts_by(attempts, DiscoveryMechanism::PEX, attempts.len() as int),
        ),
{
    lemma_attempts_by(attempts, DiscoveryMechanism::Tracker, attempts.len() as int);
    lemma_attempts_by(attempts, DiscoveryMechanism::PEX, attempts.len() as int);
    assert(attempts.take(attempts.len() as int) =~= attempts);
}

proof fn lemma_attempts_by(attempts: Seq<AttemptModel>, mechanism: DiscoveryMechanism, n: int)
    requires
        0 <= n <= attempts.len(),
    ensures
        model::count_mechanism(attempts.take(n), mechanism) == attempts_by(attempts, mechanism, n),
    decreases n,
{
    if n > 0 {
        lemma_attempts_by(attempts, mechanism, n - 1);
        assert(attempts.take(n).drop_last() =~= attempts.take(n - 1));
    }
}

/// Metadata that was asked for more than five seconds ago is not waited for any
/// longer: such a block can be asked for again, and any other stays as it is
/// unless it is asked for now.
pub proof fn law_late_metadata(m: TorrentModel, now: u64, k: int)
    requires
        m.metadata.wf(),
        0 <= k < m.metadata.blocks.len(),
    ensures
        ({
            let was = m.metadata.blocks[k];
            let is = m.expire_metadata(now).metadata.blocks[k];
            let late = was matches Block::Requested { since, .. } && now - since > 5_000;
            if late || was == Block::Free {
                is == Block::Free || (is matches Block::Requested { since, .. } && since == now)
            } else {
                is == was
            }
        }),
{
    let late = piece::late_peers(m.metadata.blocks, now);
    let expired = TorrentModel {
        metadata: m.metadata.expire(now),
        peers: model::timed_out(m.peers, late),
        ..m
    };
    transfer_laws::lemma_blocks_fit(m.metadata);
    lemma_asked_now(expired, expired.peers.len(), now, k);
}

proof fn lemma_asked_now(m: TorrentModel, n: nat, now: u64, k: int)
    requires
        m.metadata.blocks.len() <= usize::MAX,
        0 <= k < m.metadata.blocks.len(),
    ensures
        ({
            let next = m.dispatch_upto(n, now).metadata.blocks;
            &&& next.len() == m.metadata.blocks.len()
            &&& next[k] == m.metadata.blocks[k] || m.metadata.blocks[k] == Block::Free && (
            next[k] matches Block::Requested { since, .. } && since == now)
        }),
    decreases n,
{
    if n > 0 {
        lemma_asked_now(m, (n - 1) as nat, now, k);
        lemma_asked_one_now(m.dispatch_upto((n - 1) as nat, now), n - 1, now, k);
    }
}

proof fn lemma_asked_one_now(m: TorrentModel, i: int, now: u64, k: int)
    requires
        m.metadata.blocks.len() <= usize::MAX,
        0 <= k < m.metadata.blocks.len(),
    ensures
        ({
            let next = m.dispatch_one(i, now).metadata.blocks;
            &&& next.len() == m.metadata.blocks.len()
            &&& next[k] == m.metadata.blocks[k] || m.metadata.blocks[k] == Block::Free && (
            next[k] matches Block::Requested { since, .. } && since == now)
        }),
    decreases
            (if 0 <= i < m.peers.len() {
                peer::MAX_METADATA_REQUESTS - m.peers[i].1.sent_metadata_requests
            } else {
                0
            }),
{
    if 0 <= i < m.peers.len() && m.peers[i].1.can_request_metadata() {
        let id = m.peers[i].0;
        asking::law_block_choice(m.metadata, id);
        if let Some(block) = m.metadata.first_free(id) {
            lemma_asked_one_now(m.request_metadata(i, block, now), i, now, k);
        }
    }
}

/// A peer that is found under another record is the same peer still: the first
/// record that is its own learns what the new one knows, and stays where it is.
pub proof fn law_found_again(
    m: TorrentModel,
    id: PeerId,
    supports_fast: bool,
    supports_dht: bool,
    info: PeerInfoView,
    k: int,
)
    requires
        0 <= k < m.peers.len(),
        types::same_peer(m.peers[k].1.info, PeerInfoView { id: Some(id), ..info }),
        forall|j: int|
            0 <= j < k ==> !types::same_peer(
                (#[trigger] m.peers[j]).1.info,
                PeerInfoView { id: Some(id), ..info },
            ),
    ensures
        ({
            let next = m.handle_connection(id, supports_fast, supports_dht, info, None);
            let found = PeerInfoView { id: Some(id), ..info };
            &&& next.peers.len() == m.peers.len()
            &&& next.peers[k].0 == m.peers[k].0
            &&& next.peers[k].1 == (PeerModel {
                info: types::merged(m.peers[k].1.info, found),
                ..m.peers[k].1
            })
            &&& forall|j: int|
                0 <= j < m.peers.len() && j != k ==> #[trigger] next.peers[j] == m.peers[j]
        }),
{
    let found = PeerInfoView { id: Some(id), ..info };
    lemma_first_known(m.peers, found, 0);
    let f = model::first_known(m.peers, found, 0);
    if f < k {
        assert(!types::same_peer(m.peers[f].1.info, found));
    }
}

/// A peer that could not be reached is tried again where it may be, and a message
/// from a peer that is not known changes nothing but the time at which things are
/// shown.
pub proof fn law_strangers(
    m: TorrentModel,
    info: PeerInfoView,
    id: PeerId,
    message: MessageModel,
    now: u64,
    k: int,
)
    requires
        laws::attempts_ok(m.attempts),
        0 <= k < m.attempts.len(),
        types::same_peer(m.attempts[k].info, info),
        forall|j: int| 0 <= j < k ==> !types::same_peer((#[trigger] m.attempts[j]).info, info),
        forall|i: int|
            0 <= i < m.peers.len() ==> !types::same_peer((#[trigger] m.peers[i]).1.info, info),
        !assoc::has_key(m.peers, id),
    ensures
        m.handle(EventModel::ConnectionFailure(info, None), now) matches Ok(
            (next, ActionModel::Nothing),
        ) && next.peers == m.peers && next.connects == if m.attempts[k].num_attempts < 3 {
            m.connects.push((info, None))
        } else {
            m.connects
        },
        m.handle(EventModel::Message(id, message), now) matches Ok((next, ActionModel::Nothing))
            && next == (TorrentModel { shown: next.shown, ..m }),
{
    law_tries(m, info, DiscoveryMechanism::Tracker, k);
}

/// A message for the transfer goes to the transfer, with what it leads to, and
/// one that it refuses is refused. Nothing else of the torrent takes part.
pub proof fn law_messages_passed(
    m: TorrentModel,
    t: TransferModel,
    id: PeerId,
    message: MessageModel,
    now: u64,
)
    requires
        m.transfer == Some(t),
        assoc::has_key(m.peers, id),
        message is Bitfield || message is Have || message is HaveAll || message is HaveNone
            || message is Choked || message is Interested || message is Request || message is Piece
            || message is Reject || message is Cancel || message is Suggest || message
            is AllowedFast,
    ensures
        match t.handle(id, message, now) {
            Ok((after, pending)) => m.handle(EventModel::Message(id, message), now) matches Ok(
                (next, action),
            ) && next.transfer == Some(after) && action == ActionModel::Disk(pending)
                && next.peers == m.peers && next.metadata == m.metadata && next.connects
                == m.connects,
            Err(e) => m.handle(EventModel::Message(id, message), now) == Err::<
                (TorrentModel, ActionModel),
                _,
            >(model::ErrorModel::Transfer(e)),
        },
{
}

/// What is left to do once a transfer has started is done one by one and in
/// order: a peer joins the transfer, and a message is taken in as if it came now.
pub proof fn law_backlog_done(m: TorrentModel, t: TransferModel, now: u64)
    requires
        m.transfer == Some(t),
        m.backlog.len() > 0,
    ensures
        m.resume(now) matches Ok((next, pending)) ==> {
            &&& next.backlog == m.backlog.subrange(1, m.backlog.len() as int)
            &&& next.peers == m.peers && next.metadata == m.metadata
            &&& match m.backlog[0] {
                BacklogModel::Connect { peer, supports_fast } => next.transfer == Some(
                    t.add_connection(peer, supports_fast),
                ) && pending is Nothing,
                BacklogModel::Message { peer, message } => t.handle(peer, message, now) matches Ok(
                    (after, then),
                ) && next.transfer == Some(after) && pending == then,
            }
        },
        m.backlog[0] matches BacklogModel::Message { peer, message } ==> (m.resume(now) is Err
            <==> t.handle(peer, message, now) is Err),
        m.backlog[0] is Connect ==> m.resume(now) is Ok,
{
    assert(m.backlog.drop_first() =~= m.backlog.subrange(1, m.backlog.len() as int));
}

/// The block of metadata that was missing last makes the metadata complete, and
/// it is loaded: what is loaded is what the whole of it says. Until then what is
/// there of it is shown.
pub proof fn law_metadata_completed(
    m: TorrentModel,
    id: PeerId,
    whole: Seq<u8>,
    index: usize,
    piece: Seq<u8>,
    total_size: usize,
    now: u64,
)
    requires
        m.wf(),
        m.transfer is None,
        dealing::part_of(m.metadata, whole),
        digest::sha1_digest(whole) == m.metadata.hash.bytes@,
        index < m.metadata.blocks.len(),
        m.metadata.blocks[index as int] != Block::Obtained,
        16_384 * index + piece.len() <= m.metadata.length,
        piece.len() == 16_384 || 16_384 * index + piece.len() == m.metadata.length && piece.len()
            <= 16_384,
        forall|x: int| 0 <= x < piece.len() ==> #[trigger] piece[x] == whole[16_384 * index + x],
    ensures
        ({
            let answer = m.handle_metadata(
                MetadataModel::Data { index, piece, total_size },
                id,
                now,
            );
            let last = forall|k: int|
                0 <= k < m.metadata.blocks.len() && k != index ==> #[trigger] m.metadata.blocks[k]
                    == Block::Obtained;
            &&& last ==> match metainfo::parse_info(whole) {
                Ok(info) => answer matches Ok((_, action)) && action == ActionModel::Load(info),
                Err(_) => answer is Err,
            }
            &&& !last ==> (answer matches Ok((next, action)) && action is Nothing
                && next.metadata.blocks[index as int] == Block::Obtained
                && next.shown.metadata_bits.len() == m.metadata.blocks.len()
                && next.shown.metadata_bits[index as int])
        }),
{
    let k = index as int;
    assert(k * 16_384 == 16_384 * index);
    dealing::law_pieces_assembled(m.metadata, whole, k, piece, false);
    let placed = m.place_metadata(index, piece, id);
    transfer_laws::lemma_blocks_fit(m.metadata);
    lemma_asked_now(placed, placed.peers.len(), now, k);
}

/// What a torrent that was added knows: of a link only the digest that the
/// metadata has to have, and so nothing that can be asked for yet.
pub proof fn law_added_bare(client_id: PeerId, info_hash: Sha1Hash, name: Seq<char>, now: u64)
    ensures
        ({
            let m = torrent::added(
                client_id,
                info_hash,
                piece::fresh(None, 16_384, 0, info_hash, false),
                name,
            );
            &&& m.metadata.hash == info_hash && m.info_hash == info_hash
            &&& m.metadata.blocks.len() == 0 && m.metadata.length == 0
            &&& m.peers.len() == 0 && m.attempts.len() == 0 && m.connects.len() == 0
                && m.backlog.len() == 0
            &&& m.transfer is None
            &&& m.client_id == client_id
            &&& m.shown.display_name == name
        }),
{
}

/// Once a second the transfer has its second, a reconnection begins to every peer
/// that it is time for, and while there is no transfer metadata is asked for as
/// far as it can be.
pub proof fn law_second(m: TorrentModel, now: u64, i: int)
    requires
        m.wf(),
        0 <= i < m.peers.len(),
    ensures
        ({
            let next = m.tick(now);
            &&& next.peers.len() == m.peers.len()
            &&& next.peers[i].0 == m.peers[i].0
            &&& m.transfer matches Some(t) ==> next.transfer == Some(t.tick(now))
            &&& m.transfer is None ==> next.transfer is None && nothing_more(next, i)
            &&& !due(next.peers[i].1, now)
            &&& m.transfer is Some && due(m.peers[i].1, now) ==> next.connects.contains(
                (m.peers[i].1.info, m.peers[i].1.info.id),
            )
            &&& next.peers[i].1.downloaded_metadata == 0 && next.peers[i].1.uploaded_metadata == 0
        }),
{
    let late = piece::late_peers(m.metadata.blocks, now);
    let expired = TorrentModel {
        metadata: m.metadata.expire(now),
        peers: model::timed_out(m.peers, late),
        ..m
    };
    let asked = if m.transfer is None {
        m.expire_metadata(now)
    } else {
        m
    };
    if m.transfer is None {
        transfer_laws::lemma_blocks_fit(m.metadata);
        lemma_timed_out_keys(m.peers, late);
        lemma_metadata_asked(expired, expired.peers.len(), now);
        assert(nothing_more(asked, i));
        assert(keeps_identity(expired, asked, i));
    }
    law_reconnections_begin(asked, now, now, i);
    let begun = asked.reconnect(now);
    if m.transfer is Some && due(m.peers[i].1, now) {
        let x = (m.peers[i].1.info, m.peers[i].1.info.id);
        let tail = begun.connects.skip(m.connects.len() as int);
        let c = choose|c: int| 0 <= c < tail.len() && tail[c] == x;
        assert(begun.connects[m.connects.len() + c] == x);
    }
    if m.transfer is None {
        let next = m.tick(now);
        let id = asked.peers[i].0;
        if forall|k: int| !#[trigger] asking::open_to(asked.metadata, k, id) {
            assert forall|k: int| !#[trigger] asking::open_to(next.metadata, k, id) by {
                assert(!asking::open_to(asked.metadata, k, id));
            }
        }
    }
}

proof fn lemma_timed_out_keys(peers: Seq<(PeerId, PeerModel)>, late: Seq<PeerId>)
    ensures
        model::timed_out(peers, late).len() == peers.len(),
        forall|i: int|
            0 <= i < peers.len() ==> (#[trigger] model::timed_out(peers, late)[i]).0 == peers[i].0,
    decreases late.len(),
{
    if late.len() > 0 {
        let before = model::timed_out(peers, late.drop_last());
        lemma_timed_out_keys(peers, late.drop_last());
        assoc::lemma_changed_keys(before, late.last(), |p: PeerModel| p.sub_sent(1));
    }
}

/// A refusal of metadata counts only where it comes from the peer that was asked:
/// that peer is not asked for the block again, and may be asked for another.
pub proof fn law_metadata_refused(m: TorrentModel, id: PeerId, index: usize, now: u64, i: int)
    requires
        m.wf(),
        stands_at(m, i, id),
    ensures
        m.handle_metadata(MetadataModel::Reject { index }, id, now) matches Ok(
            (next, ActionModel::Nothing),
        ) && {
            let asked = m.transfer is None && index < m.metadata.blocks.len() && (
            m.metadata.blocks[index as int] matches Block::Requested { peer, .. } && peer == id);
            &&& !asked ==> next == m
            &&& asked ==> {
                &&& next.metadata.refusals == m.metadata.refusals.push((index, id))
                &&& !asking::open_to(next.metadata, index as int, id)
                &&& nothing_more(next, i)
                &&& next.metadata.hash == m.metadata.hash
            }
        },
{
    lemma_stands(m, i, id);
    transfer_laws::lemma_blocks_fit(m.metadata);
    let start = TorrentModel {
        metadata: m.metadata.reject(index as int, id),
        ..m.with_peer(id, |p: PeerModel| p.sub_sent(1))
    };
    lemma_metadata_asked(start, start.peers.len(), now);
    if m.transfer is None && m.metadata.asked(index as int) == Some(id) {
        assert(nothing_more(start.dispatch(now), i));
        let refusals = m.metadata.refusals.push((index, id));
        assert(refusals[refusals.len() - 1] == (index, id));
    }
}

/// A block of metadata that was asked of one peer and comes from another frees
/// the place of the request to the first.
pub proof fn law_metadata_credit(
    m: TorrentModel,
    id: PeerId,
    index: usize,
    piece: Seq<u8>,
    i: int,
    j: int,
)
    requires
        m.wf(),
        stands_at(m, i, id),
        0 <= j < m.peers.len(),
        j != i,
    ensures
        ({
            let p = m.peers[j].1;
            let q = m.place_metadata(index, piece, id).peers[j].1;
            let asked = index < m.metadata.blocks.len() && (
            m.metadata.blocks[index as int] matches Block::Requested { peer, .. } && peer
                == m.peers[j].0);
            &&& q == (PeerModel { sent_metadata_requests: q.sent_metadata_requests, ..p })
            &&& asked && p.sent_metadata_requests > 0 ==> q.sent_metadata_requests
                == p.sent_metadata_requests - 1
            &&& !asked ==> q.sent_metadata_requests == p.sent_metadata_requests
        }),
{
    lemma_stands(m, i, id);
    let other = m.peers[j].0;
    lemma_stands(m, j, other);
    let who = m.metadata.asked(index as int);
    let counted = m.with_peer(id, |p: PeerModel| p.receive_metadata(who == Some(id)));
    assoc::lemma_changed_keys(m.peers, id, |p: PeerModel| p.receive_metadata(who == Some(id)));
    assert(counted.peers[j] == m.peers[j]);
    if who is Some && who != Some(id) {
        let w = who->0;
        if assoc::has_key(counted.peers, w) {
            let x = assoc::index_of(counted.peers, w);
            assert(assoc::key_at(counted.peers, x, w));
            if w == other {
                assert(assoc::key_at(counted.peers, j, other));
                assoc::lemma_index_unique(counted.peers, j, other);
            }
        }
        if w == other {
            assert(assoc::key_at(counted.peers, j, other));
        }
    }
}

/// Every message that is queued goes out once, to the peer that it is for: those
/// on metadata and those of the transfer. Nothing else changes.
pub proof fn law_outboxes(m: TorrentModel, t: TransferModel, i: int, j: int)
    requires
        m.transfer == Some(t),
        0 <= i < m.peers.len(),
        0 <= j < t.connections.len(),
    ensures
        torrent::peer_outboxes(m.peers).len() == m.peers.len(),
        torrent::peer_outboxes(m.peers)[i] == (m.peers[i].0, m.peers[i].1.outbox),
        torrent::transfer_outboxes(m.transfer).len() == t.connections.len(),
        torrent::transfer_outboxes(m.transfer)[j] == (t.connections[j].0, t.connections[j].1.outbox),
        torrent::emptied(m.transfer) matches Some(after) && {
            &&& after.connections.len() == t.connections.len()
            &&& after.connections[j].0 == t.connections[j].0
            &&& after.connections[j].1.outbox.len() == 0
            &&& after.connections[j].1.sent_requests == t.connections[j].1.sent_requests
            &&& after.pieces == t.pieces && after.have == t.have
        },
{
}

/// What is shown of a peer's connection is what its connection did in the second
/// that ends, and of peers without one nothing changes. A connection that is lost
/// is not shown any more.
pub proof fn law_connections_shown(
    m: TorrentModel,
    t: TransferModel,
    id: PeerId,
    error: Seq<char>,
    now: u64,
    i: int,
    j: int,
)
    requires
        m.wf(),
        m.transfer == Some(t),
        0 <= i < m.shown.peers.len(),
    ensures
        ({
            let shown = model::shown_connections(m.shown.peers, t);
            let (peer, v) = m.shown.peers[i];
            &&& shown.len() == m.shown.peers.len()
            &&& shown[i].0 == peer
            &&& 0 <= j < t.connections.len() && t.connections[j].0 == peer ==> shown[i].1 == (
            PeerProgressView {
                connection: Some(transfer_model::connection_view(t.connections[j].1)),
                ..v
            })
            &&& !assoc::has_key(t.connections, peer) ==> shown[i].1 == v
            &&& m.handle_disconnection(id, error, now).shown.peers.len() == m.shown.peers.len()
            &&& m.handle_disconnection(id, error, now).shown.peers[i].1.connection == if peer == id {
                None
            } else {
                v.connection
            }
        }),
{
    let (peer, v) = m.shown.peers[i];
    if 0 <= j < t.connections.len() && t.connections[j].0 == peer {
        assert(assoc::key_at(t.connections, j, peer));
        assoc::lemma_index_unique(t.connections, j, peer);
    }
    if assoc::has_key(m.shown.peers, id) {
        let k = assoc::index_of(m.shown.peers, id);
        assert(assoc::key_at(m.shown.peers, k, id));
        if peer == id {
            assert(assoc::key_at(m.shown.peers, i, id));
            assoc::lemma_index_unique(m.shown.peers, i, id);
        }
    } else if peer == id {
        assert(assoc::key_at(m.shown.peers, i, id));
    }
}

} // verus!
