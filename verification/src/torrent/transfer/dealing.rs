//! What may be expected of a transfer's dealings with its peers: what it makes of
//! what they say, what it sends them, and how it puts pieces together.

use crate::assoc;
use crate::bitfield;
use crate::digest;
use crate::metainfo;
use crate::metainfo::Metadata;
use crate::proto::bit_torrent::MessageModel;
use crate::proto::tracker;
use crate::text;
use crate::torrent::control::{PieceProgressView, TransferProgress};
use crate::torrent::piece;
use crate::torrent::piece::{Block, PieceModel};
use crate::torrent::transfer;
use crate::torrent::transfer::asking;
use crate::torrent::transfer::connection::ConnectionModel;
use crate::torrent::transfer::laws;
use crate::torrent::transfer::model;
use crate::torrent::transfer::model::{PendingModel, TransferModel};
use crate::torrent::transfer::piece_cache;
use crate::types::PeerId;
use vstd::prelude::*;

verus! {

/// The connection to a peer stands at `i`.
pub open spec fn stands_at(m: TransferModel, i: int, peer: PeerId) -> bool {
    0 <= i < m.connections.len() && m.connections[i].0 == peer
}

proof fn lemma_stands(m: TransferModel, i: int, peer: PeerId)
    requires
        m.wf(),
        stands_at(m, i, peer),
    ensures
        assoc::has_key(m.connections, peer),
        assoc::index_of(m.connections, peer) == i,
        forall|j: int|
            0 <= j < m.connections.len() && j != i ==> (#[trigger] m.connections[j]).0 != peer,
        m.connections[i].1.wf(m.metadata.num_pieces as nat),
{
    assert(assoc::key_at(m.connections, i, peer));
    assoc::lemma_index_unique(m.connections, i, peer);
    assert forall|j: int| 0 <= j < m.connections.len() && j != i implies (
    #[trigger] m.connections[j]).0 != peer by {
        if i < j {
            assert(m.connections[i].0 != m.connections[j].0);
        } else {
            assert(m.connections[j].0 != m.connections[i].0);
        }
    }
    assert(m.connections[i].1.wf(m.metadata.num_pieces as nat));
}

/// What a peer has after a message from it: what it had, but for what the
/// message says. Of a bitfield, the first piece is the bit that weighs most.
pub open spec fn has_after(message: MessageModel, had: bool, p: int) -> bool {
    match message {
        MessageModel::HaveAll => true,
        MessageModel::HaveNone => false,
        MessageModel::Have { index } => had || p == index,
        MessageModel::Bitfield(bytes) => (bytes[p / 8] >> ((7 - p % 8) as u8)) & 1 == 1,
        _ => had,
    }
}

/// A peer has the pieces that it says it has, and what it says is held of no
/// other peer.
pub proof fn law_peers_are_believed(m: TransferModel, peer: PeerId, message: MessageModel, i: int)
    requires
        m.wf(),
        stands_at(m, i, peer),
    ensures
        m.step(peer, message) matches Ok((next, _)) ==> {
            &&& next.connections.len() == m.connections.len()
            &&& next.connections[i].1.has.len() == m.metadata.num_pieces
            &&& forall|p: int|
                0 <= p < m.metadata.num_pieces ==> (#[trigger] next.connections[i].1.has[p]
                    <==> has_after(message, m.connections[i].1.has[p], p))
            &&& forall|j: int|
                0 <= j < m.connections.len() && j != i ==> (
                #[trigger] next.connections[j]).1.has == m.connections[j].1.has
        },
{
    lemma_stands(m, i, peer);
    let n = m.metadata.num_pieces as int;
    laws::law_step_wf(m, peer, message);
    match message {
        MessageModel::Bitfield(bytes) => {
            assert forall|p: int| 0 <= p < n && bytes.len() == bitfield::bytes_for(
                n,
            ) implies #[trigger] bitfield::bit_of(bytes, p) == ((bytes[p / 8] >> ((7 - p
                % 8) as u8)) & 1 == 1) by {
                bitfield::law_bit_order(bytes, p);
            }
            if let Ok((next, _)) = m.step(peer, message) {
                let bits = bitfield::bits_of(bytes, n);
                assert forall|p: int| 0 <= p < n implies (#[trigger] next.connections[i].1.has[p]
                    <==> has_after(message, m.connections[i].1.has[p], p)) by {
                    assert(bits[p] == bitfield::bit_of(bytes, p));
                }
            }
        },
        MessageModel::Piece { index, begin, piece, response_time } => {
            if model::begin_error(m.metadata, index, begin, true, model::Op::Piece) is None {
                lemma_received(m, peer, index, begin, piece, response_time, i);
            }
        },
        _ => {},
    }
}

/// What is refused of a peer, and all that is: pieces that there are none of,
/// bytes past a piece, blocks that are none, and bitfields of the wrong size.
pub open spec fn must_refuse(m: TransferModel, connected: bool, message: MessageModel) -> bool {
    let n = m.metadata.num_pieces;
    let size = |index: usize|
        asking::piece_end(m.metadata, index as int) - index * m.metadata.piece_length;
    match message {
        MessageModel::Bitfield(bytes) => connected && (8 * bytes.len() < n || 8 * bytes.len() >= n
            + 8),
        MessageModel::Have { index } => index >= n,
        MessageModel::Request { index, begin, length } => index >= n || begin >= size(index)
            || begin + length > size(index),
        MessageModel::Piece { index, begin, .. } => index >= n || begin >= size(index) || begin
            % 16_384 != 0,
        MessageModel::Cancel { index, begin, length } => index >= n || begin + length > size(index)
            || begin % 16_384 != 0 || length != 16_384,
        MessageModel::Reject { index, begin, length } => index >= n || begin + length > size(index)
            || begin % 16_384 != 0 || length != 16_384,
        _ => false,
    }
}

/// Messages are refused exactly where they must be.
pub proof fn law_refusals(m: TransferModel, peer: PeerId, message: MessageModel)
    requires
        m.wf(),
    ensures
        m.step(peer, message) is Err <==> must_refuse(
            m,
            assoc::has_key(m.connections, peer),
            message,
        ),
{
    let index: usize = match message {
        MessageModel::Have { index } => index,
        MessageModel::Request { index, .. } => index,
        MessageModel::Piece { index, .. } => index,
        MessageModel::Cancel { index, .. } => index,
        MessageModel::Reject { index, .. } => index,
        _ => 0,
    };
    if index < m.metadata.num_pieces {
        lemma_piece_size(m.metadata, index as int);
    }
}

/// How long a piece is, by where it ends.
pub proof fn lemma_piece_size(metadata: Metadata, p: int)
    requires
        metadata.wf(),
        0 <= p < metadata.num_pieces,
    ensures
        metadata.piece_len(p) == asking::piece_end(metadata, p) - p * metadata.piece_length,
        0 < metadata.piece_len(p) <= metadata.piece_length,
{
    metainfo::lemma_piece_bounds(metadata, p);
    let pl = metadata.piece_length as int;
    assert((p + 1) * pl == p * pl + pl) by (nonlinear_arith);
}

/// What a transfer first says over a new connection is true: a peer with the same
/// metadata that hears it holds that the transfer has the pieces that it has, and
/// no others. It says so in ways that the peer knows, and then shows interest.
pub proof fn law_greeting_true(
    a: TransferModel,
    b: TransferModel,
    me: PeerId,
    you: PeerId,
    supports_fast: bool,
    i: int,
)
    requires
        a.wf(),
        b.wf(),
        a.metadata == b.metadata,
        stands_at(b, i, me),
        forall|p: int| 0 <= p < b.metadata.num_pieces ==> !#[trigger] b.connections[i].1.has[p],
    ensures
        ({
            let said = a.greeted(you, supports_fast).outbox;
            &&& 1 <= said.len() <= 2
            &&& said.last() == MessageModel::Interested(true)
            &&& a.greeted(you, supports_fast).am_interested
            &&& said.len() == 2 && !supports_fast ==> said[0] is Bitfield
            &&& said.len() == 1 ==> a.bits() == b.connections[i].1.has
            &&& said.len() == 2 ==> (b.step(me, said[0]) matches Ok((heard, _))
                && heard.connections[i].1.has == a.bits())
        }),
{
    lemma_stands(b, i, me);
    bitfield::lemma_count_set_bound(a.bits());
    lemma_none_set(a.bits());
    let said = a.greeted(you, supports_fast).outbox;
    if said.len() == 1 {
        assert(a.bits() =~= b.connections[i].1.has);
    }
    if said.len() == 2 {
        match said[0] {
            MessageModel::HaveNone => {
                assert(Seq::new(b.connections[i].1.has.len(), |i: int| false) =~= a.bits());
            },
            MessageModel::HaveAll => {
                assert(Seq::new(b.connections[i].1.has.len(), |i: int| true) =~= a.bits());
            },
            _ => {},
        }
    }
}

proof fn lemma_none_set(bits: Seq<bool>)
    ensures
        bitfield::count_set(bits) == 0 ==> forall|i: int| 0 <= i < bits.len() ==> !#[trigger] bits[i],
    decreases bits.len(),
{
    if bits.len() > 0 {
        lemma_none_set(bits.drop_last());
        if bitfield::count_set(bits) == 0 {
            assert forall|i: int| 0 <= i < bits.len() implies !#[trigger] bits[i] by {
                if i < bits.len() - 1 {
                    assert(bits.drop_last()[i] == bits[i]);
                }
            }
        }
    }
}

/// A message carries the bytes of a piece that were asked for.
pub open spec fn carries(
    message: MessageModel,
    index: usize,
    begin: usize,
    length: usize,
    whole: Seq<u8>,
) -> bool {
    message matches MessageModel::Piece { index: i, begin: b, piece, response_time } && {
        &&& i == index
        &&& b == begin
        &&& response_time is None
        &&& piece.len() == length
        &&& forall|x: int| 0 <= x < length ==> #[trigger] piece[x] == whole[begin + x]
    }
}

/// A peer that may be served: it is not choked, and was not sent 32 KiB this
/// second already.
pub open spec fn may_have(c: ConnectionModel) -> bool {
    !c.am_choking && c.uploaded < 32_768
}

/// A request is answered with the bytes that were asked for where the piece is
/// had and the peer may be served: at once where the piece is at hand, else once
/// it was read. Any other request is refused where the peer knows of
/// refusals, and gets no answer where it does not. Nothing else is sent, and what
/// is sent is counted.
pub proof fn law_requests_served(
    m: TransferModel,
    peer: PeerId,
    index: usize,
    begin: usize,
    length: usize,
    i: int,
    e: int,
)
    requires
        m.wf(),
        stands_at(m, i, peer),
        index < m.metadata.num_pieces,
        begin < m.metadata.piece_len(index as int),
        begin + length <= m.metadata.piece_len(index as int),
        0 <= e < m.cache.len() ==> m.cache[e].0 == index,
        !(0 <= e < m.cache.len()) ==> forall|x: int|
            0 <= x < m.cache.len() ==> (#[trigger] m.cache[x]).0 != index,
    ensures
        ({
            let c = m.connections[i].1;
            let answer = m.step(peer, MessageModel::Request { index, begin, length });
            &&& answer matches Ok((next, pending)) && {
                let d = next.connections[i].1;
                &&& next.pieces == m.pieces && next.have == m.have && next.uploaded == m.uploaded
                &&& forall|j: int|
                    0 <= j < m.connections.len() && j != i ==> (#[trigger] next.connections[j])
                        == m.connections[j]
                &&& if may_have(c) && m.bits()[index as int] {
                    if 0 <= e < m.cache.len() {
                        &&& pending is Nothing
                        &&& d.outbox.len() == c.outbox.len() + 1
                        &&& d.outbox.drop_last() == c.outbox
                        &&& carries(d.outbox.last(), index, begin, length, m.cache[e].1)
                        &&& d.uploaded == c.uploaded + length
                    } else {
                        &&& pending == (PendingModel::Read { peer, index, begin, length })
                        &&& next == m
                    }
                } else {
                    &&& pending is Nothing
                    &&& d.uploaded == c.uploaded
                    &&& d.outbox == if c.supports_fast {
                        c.outbox.push(MessageModel::Reject { index, begin, length })
                    } else {
                        c.outbox
                    }
                }
            }
        }),
{
    lemma_stands(m, i, peer);
    let whole = piece_cache::held(m.cache, index);
    let f = |c: ConnectionModel|
        c.send_piece(index, begin, whole.subrange(begin as int, begin + length));
    let g = |c: ConnectionModel| c.send(MessageModel::Reject { index, begin, length });
    laws::lemma_modified(m.connections, peer, f);
    laws::lemma_modified(m.connections, peer, g);
    if 0 <= e < m.cache.len() {
        assert(piece_cache::key_at(m.cache, e, index));
        let x = piece_cache::position(m.cache, index);
        assert(piece_cache::key_at(m.cache, x, index));
        if x < e {
            assert(m.cache[x].0 != m.cache[e].0);
        } else if e < x {
            assert(m.cache[e].0 != m.cache[x].0);
        }
        assert(m.cached_ok(e));
    } else {
        assert forall|x: int| !piece_cache::key_at(m.cache, x, index) by {}
    }
    let c = m.connections[i].1;
    assert(f(c).outbox.drop_last() =~= c.outbox);
}

/// A piece that was read is sent as far as it was asked for, and is at hand for
/// the next request.
pub proof fn law_read_served(
    m: TransferModel,
    peer: PeerId,
    index: usize,
    begin: usize,
    length: usize,
    whole: Seq<u8>,
    now: u64,
    i: int,
)
    requires
        m.wf(),
        stands_at(m, i, peer),
        index < m.metadata.num_pieces,
        whole.len() == m.metadata.piece_len(index as int),
        begin + length <= whole.len(),
    ensures
        ({
            let c = m.connections[i].1;
            let next = m.finish_read(peer, index, begin, length, whole, now);
            let d = next.connections[i].1;
            &&& d.outbox.len() > c.outbox.len()
            &&& d.outbox.take(c.outbox.len() as int) == c.outbox
            &&& carries(d.outbox[c.outbox.len() as int], index, begin, length, whole)
            &&& d.uploaded == c.uploaded + length
            &&& next.have == m.have
            &&& next.uploaded == m.uploaded
            &&& next.cache.len() > 0 && next.cache.last() == (index, whole)
        }),
{
    lemma_stands(m, i, peer);
    let f = |c: ConnectionModel|
        c.send_piece(index, begin, whole.subrange(begin as int, begin + length));
    laws::lemma_modified(m.connections, peer, f);
    laws::law_finish_read_wf(m, peer, index, begin, length, whole, now);
    let after = laws::after_read(m, peer, index, begin, length, whole);
    asking::law_requests_right(after, now);
    let next = m.finish_read(peer, index, begin, length, whole, now);
    assert(next == after.dispatch(now));
    assert(asking::connection_follows(after, next, i, now));
    let c = m.connections[i].1;
    let b = after.connections[i].1;
    let d = next.connections[i].1;
    assert(d.outbox.take(b.outbox.len() as int)[c.outbox.len() as int] == b.outbox.last());
    assert(d.outbox.take(c.outbox.len() as int) =~= c.outbox) by {
        assert(b.outbox.take(c.outbox.len() as int) =~= c.outbox);
        assert(d.outbox.take(b.outbox.len() as int).take(c.outbox.len() as int)
            =~= d.outbox.take(c.outbox.len() as int));
    }
}

/// What a peer that chokes does not answer any more is free to be asked of
/// others: all of it, unless the peer says of each request that it refuses it.
/// Nothing asked of other peers is touched.
pub proof fn law_choking(m: TransferModel, peer: PeerId, choked: bool, i: int, p: int, k: int)
    requires
        m.wf(),
        stands_at(m, i, peer),
        0 <= p < m.pieces.len(),
        0 <= k < m.pieces[p].blocks.len(),
    ensures
        m.step(peer, MessageModel::Choked(choked)) matches Ok((next, PendingModel::Nothing)) && {
            let c = m.connections[i].1;
            let d = next.connections[i].1;
            let gives_up = choked && !c.supports_fast;
            &&& d.peer_choking == choked
            &&& d.chokes == c.chokes + if choked {
                1nat
            } else {
                0nat
            }
            &&& d.sent_requests == if gives_up {
                0
            } else {
                c.sent_requests
            }
            &&& d.outbox == c.outbox
            &&& next.pieces[p].blocks[k] == if gives_up && (m.pieces[p].blocks[k] matches Block::Requested {
                peer: q,
                ..
            } && q == peer) {
                Block::Free
            } else {
                m.pieces[p].blocks[k]
            }
        },
{
    lemma_stands(m, i, peer);
    let f = |c: ConnectionModel| c.set_peer_choking(choked);
    laws::lemma_modified(m.connections, peer, f);
}

/// A peer that says whether it is interested is held to be, is not choked any
/// more, and is told so.
pub proof fn law_interest(m: TransferModel, peer: PeerId, interested: bool, i: int)
    requires
        m.wf(),
        stands_at(m, i, peer),
    ensures
        m.step(peer, MessageModel::Interested(interested)) matches Ok((next, PendingModel::Nothing))
            && {
            let c = m.connections[i].1;
            let d = next.connections[i].1;
            &&& d.peer_interested == interested
            &&& !d.am_choking
            &&& d.outbox == c.outbox.push(MessageModel::Choked(false))
            &&& next.pieces == m.pieces
        },
{
    lemma_stands(m, i, peer);
    laws::lemma_modified(
        m.connections,
        peer,
        |c: ConnectionModel|
            (ConnectionModel { peer_interested: interested, ..c }).set_am_choking(false),
    );
}

/// A connection that is gone leaves nothing asked of its peer; all else is as it
/// was.
pub proof fn law_severed(m: TransferModel, peer: PeerId, p: int, k: int)
    requires
        m.wf(),
        0 <= p < m.pieces.len(),
        0 <= k < m.pieces[p].blocks.len(),
    ensures
        m.sever(peer).pieces[p].blocks[k] == if m.pieces[p].blocks[k] matches Block::Requested {
            peer: q,
            ..
        } && q == peer {
            Block::Free
        } else {
            m.pieces[p].blocks[k]
        },
        m.sever(peer).have == m.have,
        forall|e: (PeerId, ConnectionModel)| #[trigger]
            m.sever(peer).connections.contains(e) <==> m.connections.contains(e) && e.0 != peer,
{
    let after = m.sever(peer).connections;
    laws::lemma_removed(m.connections, peer);
    assert forall|e: (PeerId, ConnectionModel)| #[trigger] after.contains(e) <==> m.connections.contains(
        e,
    ) && e.0 != peer by {
        if after.contains(e) {
            let j = choose|j: int| 0 <= j < after.len() && after[j] == e;
            assert(m.connections.contains(after[j]));
            if e.0 == peer {
                assert(assoc::key_at(after, j, peer));
            }
        }
        if m.connections.contains(e) && e.0 != peer {
            let j = choose|j: int| 0 <= j < m.connections.len() && m.connections[j] == e;
            if assoc::has_key(m.connections, peer) {
                let r = assoc::index_of(m.connections, peer);
                assert(assoc::key_at(m.connections, r, peer));
                if j < r {
                    assert(after[j] == e);
                } else {
                    assert(after[j - 1] == e);
                }
            }
        }
    }
}

/// A refusal of a block by the peer that it was asked of frees the block for
/// others, but not for that peer, and frees the place of the request. A refusal
/// by any other peer changes nothing.
pub proof fn law_refused_block(
    m: TransferModel,
    peer: PeerId,
    index: usize,
    begin: usize,
    i: int,
)
    requires
        m.wf(),
        stands_at(m, i, peer),
        index < m.metadata.num_pieces,
        begin % 16_384 == 0,
        begin + 16_384 <= m.metadata.piece_len(index as int),
    ensures
        m.step(peer, MessageModel::Reject { index, begin, length: 16_384 }) matches Ok(
            (next, PendingModel::Nothing),
        ) && {
            let k = begin as int / 16_384;
            let c = m.connections[i].1;
            let d = next.connections[i].1;
            if m.pieces[index as int].blocks[k] matches Block::Requested { peer: q, .. } && q
                == peer {
                &&& next.pieces[index as int].blocks == m.pieces[index as int].blocks.update(
                    k,
                    Block::Free,
                )
                &&& !asking::open_to(next.pieces[index as int], k, peer)
                &&& forall|q: PeerId|
                    q != peer && !m.pieces[index as int].refusals.contains((k as usize, q))
                        ==> #[trigger] asking::open_to(next.pieces[index as int], k, q)
                &&& d.sent_requests == c.sent_requests - 1 || c.sent_requests == 0
                &&& d.rejects == c.rejects + 1
                &&& forall|p: int|
                    0 <= p < m.pieces.len() && p != index ==> (#[trigger] next.pieces[p])
                        == m.pieces[p]
            } else {
                next == m
            }
        },
{
    lemma_stands(m, i, peer);
    let k = begin as int / 16_384;
    let at = m.pieces[index as int];
    assert(m.piece_ok(index as int));
    piece::lemma_offset_block(at, begin as int);
    laws::lemma_modified(m.connections, peer, |c: ConnectionModel| c.reject());
    laws::lemma_blocks_fit(at);
    let x = at.reject(k, peer);
    if at.asked(k) == Some(peer) {
        assert(x.refusals.last() == (k as usize, peer));
        assert forall|q: PeerId|
            q != peer && !at.refusals.contains((k as usize, q)) implies #[trigger] asking::open_to(
            x,
            k,
            q,
        ) by {
            if x.refusals.contains((k as usize, q)) {
                let j = choose|j: int| 0 <= j < x.refusals.len() && x.refusals[j] == (k as usize, q);
                if j < at.refusals.len() {
                    assert(at.refusals[j] == (k as usize, q));
                }
            }
        }
    }
}

proof fn lemma_received(
    m: TransferModel,
    peer: PeerId,
    index: usize,
    begin: usize,
    block: Seq<u8>,
    response_time: Option<u64>,
    i: int,
)
    requires
        m.wf(),
        stands_at(m, i, peer),
        index < m.metadata.num_pieces,
        begin < m.metadata.piece_len(index as int),
    ensures
        ({
            let next = m.receive(peer, index, begin, block, response_time).0;
            let k = begin as int / 16_384;
            let was = m.pieces[index as int].blocks[k];
            let who = m.pieces[index as int].asked(k);
            &&& was is Obtained ==> next == m
            &&& !(was is Obtained) ==> {
                &&& next.pieces == m.pieces.update(
                    index as int,
                    m.pieces[index as int].place(k, block, true).0,
                )
                &&& next.connections.len() == m.connections.len()
                &&& forall|j: int|
                    0 <= j < m.connections.len() ==> (#[trigger] next.connections[j]).0
                        == m.connections[j].0 && next.connections[j].1 == {
                        let c = m.connections[j].1;
                        let d = if j == i {
                            c.receive_piece(block.len(), response_time, false)
                        } else {
                            c
                        };
                        if who == Some(m.connections[j].0) {
                            d.sub_sent_requests(1)
                        } else {
                            d
                        }
                    }
            }
        }),
{
    lemma_stands(m, i, peer);
    let k = begin as int / 16_384;
    let at = m.pieces[index as int];
    assert(m.piece_ok(index as int));
    piece::lemma_offset_block(at, begin as int);
    if !at.obtained(k) {
        let who = at.asked(k);
        let f = |c: ConnectionModel|
            c.receive_piece(block.len(), response_time, who == Some(peer));
        laws::lemma_modified(m.connections, peer, f);
        let counted = m.with_connection(peer, f);
        if who is Some && who != Some(peer) {
            laws::lemma_modified(
                counted.connections,
                who->0,
                |c: ConnectionModel| c.sub_sent_requests(1),
            );
        }
    }
}

/// A block that comes in is counted once, for the peer that sent it, and frees
/// the place of the request for it, whomever it was asked of. One that is there
/// already changes nothing.
pub proof fn law_block_counted(
    m: TransferModel,
    peer: PeerId,
    index: usize,
    begin: usize,
    block: Seq<u8>,
    response_time: Option<u64>,
    i: int,
    j: int,
)
    requires
        m.wf(),
        stands_at(m, i, peer),
        0 <= j < m.connections.len(),
        index < m.metadata.num_pieces,
        begin % 16_384 == 0,
        begin < m.metadata.piece_len(index as int),
    ensures
        m.step(peer, MessageModel::Piece { index, begin, piece: block, response_time }) matches Ok(
            (next, pending),
        ) && {
            let was = m.pieces[index as int].blocks[begin as int / 16_384];
            let c = m.connections[j].1;
            let d = next.connections[j].1;
            &&& was == Block::Obtained ==> next == m && pending is Nothing
            &&& was != Block::Obtained ==> {
                &&& d.downloaded == c.downloaded + if j == i {
                    block.len()
                } else {
                    0
                }
                &&& d.uploaded == c.uploaded
                &&& d.response_times_sum == c.response_times_sum + if j == i && response_time is Some {
                    response_time->0 as nat
                } else {
                    0
                }
                &&& d.num_response_times == c.num_response_times + if j == i && response_time is Some {
                    1nat
                } else {
                    0
                }
                &&& d.outbox == c.outbox
                &&& if was matches Block::Requested { peer: q, .. } && q == m.connections[j].0 {
                    d.sent_requests == c.sent_requests - 1 || c.sent_requests == 0
                } else {
                    d.sent_requests == c.sent_requests
                }
            }
        },
{
    assert(m.piece_ok(index as int));
    piece::lemma_offset_block(m.pieces[index as int], begin as int);
    lemma_received(m, peer, index, begin, block, response_time, i);
    assert(m.connections[j].1.sent_requests >= 0);
}

/// The bytes that block `k` of a piece covers.
pub open spec fn within(m: PieceModel, k: int, x: int) -> bool {
    0 <= x < m.length && k * m.block_size <= x < (k + 1) * m.block_size
}

/// What is there of a piece is what belongs there: every byte of every block
/// that is there is that of `whole`.
pub open spec fn part_of(m: PieceModel, whole: Seq<u8>) -> bool {
    &&& whole.len() == m.length
    &&& forall|k: int, x: int|
        0 <= k < m.blocks.len() && m.blocks[k] == Block::Obtained && #[trigger] within(m, k, x)
            ==> m.data.len() == m.length && m.data[x] == whole[x]
}

/// Pieces are put together right: where every block that comes is the part of
/// the piece that it says it is, in whatever order they come, the piece that
/// comes out is the whole one, and it does so with the last block that was
/// missing.
pub proof fn law_pieces_assembled(
    m: PieceModel,
    whole: Seq<u8>,
    k: int,
    block: Seq<u8>,
    release: bool,
)
    requires
        m.wf(),
        part_of(m, whole),
        digest::sha1_digest(whole) == m.hash.bytes@,
        0 <= k < m.blocks.len(),
        m.blocks[k] != Block::Obtained,
        k * m.block_size + block.len() <= m.length,
        block.len() == m.block_size || k * m.block_size + block.len() == m.length && block.len()
            <= m.block_size,
        forall|x: int| 0 <= x < block.len() ==> #[trigger] block[x] == whole[k * m.block_size + x],
    ensures
        ({
            let (next, out) = m.place(k, block, release);
            &&& next.blocks == m.blocks.update(k, Block::Obtained)
            &&& out is Some <==> forall|j: int|
                0 <= j < m.blocks.len() && j != k ==> #[trigger] m.blocks[j] == Block::Obtained
            &&& out is Some ==> out == Some(whole)
            &&& out is None ==> part_of(next, whole)
            &&& out is Some && !release ==> part_of(next, whole)
        }),
{
    let b = m.block_size as int;
    piece::lemma_block_bounds(m, k);
    assert(block.len() == m.block_length(k));
    let data = m.filled(k, block);
    let next = PieceModel { blocks: m.blocks.update(k, Block::Obtained), data, ..m };
    assert((k + 1) * b == k * b + b) by (nonlinear_arith);
    assert(part_of(next, whole)) by {
        assert forall|j: int, x: int|
            0 <= j < next.blocks.len() && next.blocks[j] == Block::Obtained && #[trigger] within(
                next,
                j,
                x,
            ) implies next.data.len() == next.length && next.data[x] == whole[x] by {
            if j == k {
                assert(data[x] == block[x - k * b]);
            } else {
                assert(m.blocks[j] == Block::Obtained);
                assert(within(m, j, x));
                assert(x < k * b || x >= k * b + b) by (nonlinear_arith)
                    requires
                        j * b <= x < (j + 1) * b,
                        j != k,
                        b > 0,
                ;
            }
        }
    }
    if forall|j: int| 0 <= j < m.blocks.len() && j != k ==> #[trigger] m.blocks[j] == Block::Obtained {
        assert forall|j: int| 0 <= j < next.blocks.len() implies (#[trigger] next.blocks[j])
            == Block::Obtained by {
            if j != k {
                assert(m.blocks[j] == Block::Obtained);
            }
        }
        assert(next.complete());
        assert forall|x: int| 0 <= x < whole.len() implies data[x] == whole[x] by {
            piece::lemma_offset_block(next, x);
            let j = x / b;
            assert(j * b <= x < (j + 1) * b) by (nonlinear_arith)
                requires
                    j == x / b,
                    b > 0,
                    x >= 0,
            ;
            assert(within(next, j, x));
        }
        assert(data =~= whole);
    } else if next.complete() {
        assert forall|j: int| 0 <= j < m.blocks.len() && j != k implies #[trigger] m.blocks[j]
            == Block::Obtained by {
            assert(next.blocks[j] is Obtained);
        }
    }
}

/// A piece that comes out wrong starts over, and a block of the wrong length is
/// asked for again; neither gives a piece.
pub proof fn law_wrong_bytes(m: PieceModel, k: int, block: Seq<u8>, release: bool)
    requires
        m.wf(),
        0 <= k < m.blocks.len(),
        m.blocks[k] != Block::Obtained,
    ensures
        ({
            let (next, out) = m.place(k, block, release);
            &&& out matches Some(whole) ==> digest::sha1_digest(whole) == m.hash.bytes@
                && whole.len() == m.length && forall|x: int|
                0 <= x < block.len() ==> #[trigger] block[x] == whole[k * m.block_size + x]
            &&& k * m.block_size + block.len() > m.length || block.len() > m.block_size
                || block.len() == 0 ==> out is None && next.blocks == m.blocks.update(k, Block::Free)
            &&& out is None && (forall|j: int|
                0 <= j < m.blocks.len() && j != k ==> #[trigger] m.blocks[j] == Block::Obtained)
                ==> next.blocks[k] == Block::Free
        }),
{
    piece::lemma_block_bounds(m, k);
    let data = m.filled(k, block);
    let next = PieceModel { blocks: m.blocks.update(k, Block::Obtained), data, ..m };
    if block.len() == m.block_length(k) {
        if m.place(k, block, release).1 is Some {
            assert forall|x: int| 0 <= x < block.len() implies #[trigger] block[x] == data[k
                * m.block_size + x] by {}
        }
        if forall|j: int|
            0 <= j < m.blocks.len() && j != k ==> #[trigger] m.blocks[j] == Block::Obtained {
            assert forall|j: int| 0 <= j < next.blocks.len() implies (
            #[trigger] next.blocks[j]) is Obtained by {
                if j != k {
                    assert(m.blocks[j] == Block::Obtained);
                }
            }
        }
    }
}

/// What is sent to all peers this second.
pub open spec fn sent_now(connections: Seq<(PeerId, ConnectionModel)>) -> nat
    decreases connections.len(),
{
    if connections.len() == 0 {
        0
    } else {
        sent_now(connections.drop_last()) + connections.last().1.uploaded
    }
}

/// What was sent to peers in all seconds so far.
pub open spec fn sent_ever(m: TransferModel) -> nat {
    m.uploaded + sent_now(m.connections)
}

proof fn lemma_sent_update(connections: Seq<(PeerId, ConnectionModel)>, i: int, c: ConnectionModel)
    requires
        0 <= i < connections.len(),
    ensures
        sent_now(connections.update(i, (connections[i].0, c))) == sent_now(connections)
            - connections[i].1.uploaded + c.uploaded,
        connections[i].1.uploaded <= sent_now(connections),
    decreases connections.len(),
{
    let after = connections.update(i, (connections[i].0, c));
    if i == connections.len() - 1 {
        assert(after.drop_last() =~= connections.drop_last());
    } else {
        assert(after.drop_last() =~= connections.drop_last().update(i, (connections[i].0, c)));
        lemma_sent_update(connections.drop_last(), i, c);
    }
}

proof fn lemma_sent_same(
    a: Seq<(PeerId, ConnectionModel)>,
    b: Seq<(PeerId, ConnectionModel)>,
)
    requires
        a.len() == b.len(),
        forall|i: int| 0 <= i < a.len() ==> (#[trigger] b[i]).1.uploaded == a[i].1.uploaded,
    ensures
        sent_now(a) == sent_now(b),
    decreases a.len(),
{
    if a.len() > 0 {
        assert(b[a.len() - 1].1.uploaded == a[a.len() - 1].1.uploaded);
        assert forall|i: int| 0 <= i < a.drop_last().len() implies (
        #[trigger] b.drop_last()[i]).1.uploaded == a.drop_last()[i].1.uploaded by {
            assert(b[i].1.uploaded == a[i].1.uploaded);
        }
        lemma_sent_same(a.drop_last(), b.drop_last());
    }
}

proof fn lemma_sent_none(connections: Seq<(PeerId, ConnectionModel)>)
    requires
        forall|i: int| 0 <= i < connections.len() ==> (#[trigger] connections[i]).1.uploaded == 0,
    ensures
        sent_now(connections) == 0,
    decreases connections.len(),
{
    if connections.len() > 0 {
        let rest = connections.drop_last();
        assert forall|i: int| 0 <= i < rest.len() implies (#[trigger] rest[i]).1.uploaded == 0 by {
            assert(connections[i].1.uploaded == 0);
        }
        assert(connections[connections.len() - 1].1.uploaded == 0);
        lemma_sent_none(rest);
    }
}

proof fn lemma_asking_sends_nothing(m: TransferModel, now: u64)
    requires
        m.wf(),
    ensures
        sent_ever(m.dispatch(now)) == sent_ever(m),
        m.dispatch(now).uploaded == m.uploaded,
{
    asking::law_requests_right(m, now);
    let next = m.dispatch(now);
    assert forall|i: int| 0 <= i < m.connections.len() implies (
    #[trigger] next.connections[i]).1.uploaded == m.connections[i].1.uploaded by {
        assert(asking::connection_follows(m, next, i, now));
    }
    lemma_sent_same(m.connections, next.connections);
}

/// Every byte that is sent to a peer is counted once, and no second loses any:
/// a read that is served adds the bytes that were asked for, and a tick or
/// a written piece adds none.
pub proof fn law_uploads_counted(
    m: TransferModel,
    peer: PeerId,
    index: usize,
    begin: usize,
    length: usize,
    whole: Seq<u8>,
    now: u64,
    i: int,
)
    requires
        m.wf(),
        stands_at(m, i, peer),
        index < m.metadata.num_pieces,
        whole.len() == m.metadata.piece_len(index as int),
        begin + length <= whole.len(),
    ensures
        sent_ever(m.finish_read(peer, index, begin, length, whole, now)) == sent_ever(m) + length,
        sent_ever(m.tick(now)) == sent_ever(m),
        m.tick(now).uploaded == sent_ever(m),
        !m.bits()[index as int] && m.pieces[index as int].complete()
            && m.pieces[index as int].written ==> sent_ever(m.finish_write(index, now)) == sent_ever(
            m,
        ),
{
    lemma_stands(m, i, peer);
    let c = m.connections[i].1;
    let f = |c: ConnectionModel|
        c.send_piece(index, begin, whole.subrange(begin as int, begin + length));
    laws::lemma_modified(m.connections, peer, f);
    laws::law_finish_read_wf(m, peer, index, begin, length, whole, now);
    let read = laws::after_read(m, peer, index, begin, length, whole);
    assert(read.connections =~= m.connections.update(i, (peer, f(c))));
    lemma_sent_update(m.connections, i, f(c));
    lemma_asking_sends_nothing(read, now);
    laws::lemma_expire_wf(m, m.pieces.len(), now);
    lemma_expire_counts(m, m.pieces.len(), now);
    let expired = m.expire_upto(m.pieces.len(), now);
    laws::lemma_statistics_wf(expired);
    lemma_sent_same(m.connections, expired.connections);
    lemma_sums(expired.connections);
    lemma_sent_none(expired.statistics().connections);
    lemma_asking_sends_nothing(expired.statistics(), now);
    asking::law_requests_right(expired.statistics(), now);
    if !m.bits()[index as int] && m.pieces[index as int].complete()
        && m.pieces[index as int].written {
        laws::law_finish_write_wf(m, index, now);
        let after = laws::after_write(m, index);
        lemma_sent_same(m.connections, after.connections);
        lemma_asking_sends_nothing(after, now);
    }
}

proof fn lemma_sums(connections: Seq<(PeerId, ConnectionModel)>)
    ensures
        model::sum_uploaded(connections) == sent_now(connections),
    decreases connections.len(),
{
    if connections.len() > 0 {
        lemma_sums(connections.drop_last());
    }
}

proof fn lemma_expire_counts(m: TransferModel, n: nat, now: u64)
    requires
        m.wf(),
        n <= m.pieces.len(),
    ensures
        ({
            let next = m.expire_upto(n, now);
            &&& next.connections.len() == m.connections.len()
            &&& next.pieces.len() == m.pieces.len()
            &&& forall|p: int|
                0 <= p < m.pieces.len() ==> #[trigger] next.pieces[p] == if p < n {
                    m.pieces[p].expire(now)
                } else {
                    m.pieces[p]
                }
            &&& forall|i: int|
                0 <= i < m.connections.len() ==> {
                    let c = m.connections[i].1;
                    let d = (#[trigger] next.connections[i]).1;
                    let peer = m.connections[i].0;
                    &&& next.connections[i].0 == peer
                    &&& d == (ConnectionModel {
                        sent_requests: d.sent_requests,
                        timeouts: d.timeouts,
                        ..c
                    })
                    &&& d.timeouts - c.timeouts == model::total_asked(m.pieces, peer)
                        - model::total_asked(next.pieces, peer)
                    &&& d.sent_requests == c.sent_requests - (d.timeouts - c.timeouts)
                        || d.sent_requests == 0 && c.sent_requests <= d.timeouts - c.timeouts
                }
        }),
    decreases n,
{
    if n > 0 {
        lemma_expire_counts(m, (n - 1) as nat, now);
        laws::lemma_expire_wf(m, (n - 1) as nat, now);
        let before = m.expire_upto((n - 1) as nat, now);
        let next = m.expire_upto(n, now);
        let at = before.pieces[n - 1];
        let late = piece::late_peers(at.blocks, now);
        laws::lemma_timed_out(before.connections, late);
        assert forall|i: int| 0 <= i < m.connections.len() implies {
            let c = m.connections[i].1;
            let d = (#[trigger] next.connections[i]).1;
            let peer = m.connections[i].0;
            &&& next.connections[i].0 == peer
            &&& d == (ConnectionModel {
                sent_requests: d.sent_requests,
                timeouts: d.timeouts,
                ..c
            })
            &&& d.timeouts - c.timeouts == model::total_asked(m.pieces, peer) - model::total_asked(
                next.pieces,
                peer,
            )
            &&& d.sent_requests == c.sent_requests - (d.timeouts - c.timeouts) || d.sent_requests
                == 0 && c.sent_requests <= d.timeouts - c.timeouts
        } by {
            let peer = m.connections[i].0;
            assert(before.connections[i].0 == peer);
            laws::lemma_total_update(before.pieces, n - 1, at.expire(now), peer);
            piece::lemma_count_expire(at, now, peer);
        }
    }
}

/// A request that has been out for more than five seconds is given up, and no
/// other. Each that is given up is counted as a timeout of the peer that it was
/// sent to, and its place is free again.
pub proof fn law_late_requests(m: TransferModel, now: u64, p: int, k: int, i: int)
    requires
        m.wf(),
        0 <= p < m.pieces.len(),
        0 <= k < m.pieces[p].blocks.len(),
        0 <= i < m.connections.len(),
    ensures
        ({
            let next = m.expire_upto(m.pieces.len(), now);
            let peer = m.connections[i].0;
            let c = m.connections[i].1;
            let d = next.connections[i].1;
            let late = model::total_asked(m.pieces, peer) - model::total_asked(next.pieces, peer);
            &&& next.pieces[p].blocks[k] == if m.pieces[p].blocks[k] matches Block::Requested {
                since,
                ..
            } && now - since > 5_000 {
                Block::Free
            } else {
                m.pieces[p].blocks[k]
            }
            &&& d.timeouts == c.timeouts + late
            &&& d.sent_requests == if c.sent_requests >= late {
                c.sent_requests - late
            } else {
                0
            }
            &&& late >= 0
        }),
{
    lemma_expire_counts(m, m.pieces.len(), now);
    laws::lemma_expire_wf(m, m.pieces.len(), now);
    let next = m.expire_upto(m.pieces.len(), now);
    lemma_fewer_asked(m.pieces, next.pieces, m.connections[i].0, now);
}

proof fn lemma_fewer_asked(a: Seq<PieceModel>, b: Seq<PieceModel>, peer: PeerId, now: u64)
    requires
        a.len() == b.len(),
        forall|p: int| 0 <= p < a.len() ==> #[trigger] b[p] == a[p].expire(now),
    ensures
        model::total_asked(b, peer) <= model::total_asked(a, peer),
    decreases a.len(),
{
    if a.len() > 0 {
        assert(b[a.len() - 1] == a[a.len() - 1].expire(now));
        assert forall|p: int| 0 <= p < a.len() - 1 implies #[trigger] b.drop_last()[p]
            == a.drop_last()[p].expire(now) by {
            assert(b[p] == a[p].expire(now));
        }
        lemma_fewer_asked(a.drop_last(), b.drop_last(), peer, now);
        piece::lemma_count_expire(a.last(), now, peer);
    }
}

/// A piece that was written is had from then on, every connected peer is told
/// of it, and the trackers are told how far the download is: what is downloaded
/// and what is left make up the torrent, each piece that is had counts as a whole
/// one as far as the torrent goes, and what was uploaded is what was sent to
/// peers in the seconds before this one.
pub proof fn law_written_piece_told(m: TransferModel, index: usize, now: u64, i: int)
    requires
        m.wf(),
        m.uploaded <= usize::MAX,
        index < m.metadata.num_pieces,
        !m.bits()[index as int],
        m.pieces[index as int].complete(),
        m.pieces[index as int].written,
    ensures
        ({
            let next = m.finish_write(index, now);
            let told = next.announced;
            let whole = bitfield::count_set(next.bits()) * m.metadata.piece_length;
            &&& next.bits() == m.bits().update(index as int, true)
            &&& bitfield::count_set(next.bits()) == bitfield::count_set(m.bits()) + 1
            &&& told.downloaded + told.left == m.metadata.length
            &&& told.downloaded == if whole <= m.metadata.length {
                whole
            } else {
                m.metadata.length as int
            }
            &&& told.left == next.left()
            &&& told.uploaded == m.uploaded
            &&& next.uploaded == m.uploaded
            &&& told.event == tracker::Event::Started
            &&& 0 <= i < m.connections.len() ==> {
                let c = m.connections[i].1;
                let d = next.connections[i].1;
                &&& d.outbox.len() > c.outbox.len()
                &&& d.outbox.take(c.outbox.len() as int) == c.outbox
                &&& d.outbox[c.outbox.len() as int] == MessageModel::Have { index }
            }
        }),
{
    laws::law_finish_write_wf(m, index, now);
    let after = laws::after_write(m, index);
    let next = m.finish_write(index, now);
    assert(next == after.dispatch(now));
    asking::law_requests_right(after, now);
    bitfield::lemma_count_set_update(m.bits(), index as int);
    laws::law_downloaded_and_left(after);
    assert(after.downloaded() >= 0) by {
        laws::law_downloaded_and_left(after);
    }
    if 0 <= i < m.connections.len() {
        assert(asking::connection_follows(after, next, i, now));
        let c = m.connections[i].1;
        let b = after.connections[i].1;
        let d = next.connections[i].1;
        assert(b.outbox == c.outbox.push(MessageModel::Have { index }));
        assert(d.outbox.take(b.outbox.len() as int)[c.outbox.len() as int] == b.outbox.last());
        assert(d.outbox.take(c.outbox.len() as int) =~= c.outbox) by {
            assert(b.outbox.take(c.outbox.len() as int) =~= c.outbox);
            assert(d.outbox.take(b.outbox.len() as int).take(c.outbox.len() as int)
                =~= d.outbox.take(c.outbox.len() as int));
        }
    }
}

/// What comes from all peers this second.
pub open spec fn came_now(connections: Seq<(PeerId, ConnectionModel)>) -> nat
    decreases connections.len(),
{
    if connections.len() == 0 {
        0
    } else {
        came_now(connections.drop_last()) + connections.last().1.downloaded
    }
}

proof fn lemma_came(connections: Seq<(PeerId, ConnectionModel)>)
    ensures
        model::sum_downloaded(connections) == came_now(connections),
    decreases connections.len(),
{
    if connections.len() > 0 {
        lemma_came(connections.drop_last());
    }
}

/// The speeds that are shown of a transfer are those of its connections taken
/// together, and what it shows as uploaded is all that was ever sent. A
/// connection shows what came over it as its speed down, what was sent as its
/// speed up, and what it is as it is.
pub proof fn law_speeds_shown(
    m: TransferModel,
    before: Option<TransferProgress>,
    after: TransferProgress,
    c: ConnectionModel,
)
    requires
        transfer::shows_speeds(m, before, after),
    ensures
        after.down_speed == came_now(m.connections),
        after.up_speed == sent_now(m.connections),
        after.uploaded == sent_ever(m),
        before is None ==> after.size == m.metadata.length && after.downloaded
            == m.metadata.length - m.left() && after.piece_bitfield@ == m.bits(),
        before matches Some(b) ==> after.size == b.size && after.downloaded == b.downloaded,
        ({
            let v = model::connection_view(c);
            &&& v.down_speed == c.downloaded
            &&& v.up_speed == c.uploaded
            &&& v.has == c.has
            &&& v.am_choking == c.am_choking && v.peer_choking == c.peer_choking
            &&& v.am_interested == c.am_interested && v.peer_interested == c.peer_interested
            &&& v.pipeline == c.max_requests
            &&& v.piece_cursor == c.piece_cursor
            &&& v.timeout_rate == c.timeouts
            &&& v.reject_rate == c.rejects
        }),
{
    lemma_came(m.connections);
    lemma_sums(m.connections);
}

/// How many of the first `n` blocks are there.
pub open spec fn there_among(blocks: Seq<Block>, n: int) -> nat
    decreases n,
{
    if n <= 0 {
        0
    } else if blocks[n - 1] == Block::Obtained {
        there_among(blocks, n - 1) + 1
    } else {
        there_among(blocks, n - 1)
    }
}

proof fn lemma_there(blocks: Seq<Block>, n: int)
    requires
        0 <= n <= blocks.len(),
    ensures
        piece::count_obtained(blocks.take(n)) == there_among(blocks, n),
    decreases n,
{
    if n > 0 {
        lemma_there(blocks, n - 1);
        assert(blocks.take(n).drop_last() =~= blocks.take(n - 1));
    }
}

/// Work on a piece has begun and is not done: some block is asked for or there,
/// and some block is not there.
pub open spec fn under_way(m: PieceModel) -> bool {
    &&& exists|k: int| 0 <= k < m.blocks.len() && #[trigger] m.blocks[k] != Block::Free
    &&& exists|k: int| 0 <= k < m.blocks.len() && #[trigger] m.blocks[k] != Block::Obtained
}

/// What is shown of a piece agrees with it.
pub open spec fn shows_piece(v: PieceProgressView, pieces: Seq<PieceModel>) -> bool {
    let p = v.index as int;
    &&& v.index < pieces.len()
    &&& under_way(pieces[p])
    &&& v.num_blocks == pieces[p].blocks.len()
    &&& v.num_obtained_blocks == there_among(pieces[p].blocks, pieces[p].blocks.len() as int)
    &&& v.bits.len() == pieces[p].blocks.len()
    &&& forall|k: int|
        0 <= k < v.bits.len() ==> (#[trigger] v.bits[k] <==> pieces[p].blocks[k]
            == Block::Obtained)
}

/// The pieces that are shown are those that work has begun on and is not done,
/// in order, and each as far as it is.
pub proof fn law_active_pieces(pieces: Seq<PieceModel>)
    ensures
        ({
            let list = model::active_pieces(pieces);
            &&& forall|i: int| 0 <= i < list.len() ==> shows_piece(#[trigger] list[i], pieces)
            &&& forall|i: int, j: int|
                0 <= i < j < list.len() ==> (#[trigger] list[i]).index < (#[trigger] list[j]).index
            &&& forall|p: int|
                0 <= p < pieces.len() && under_way(#[trigger] pieces[p]) ==> exists|i: int|
                    0 <= i < list.len() && (#[trigger] list[i]).index == p
        }),
    decreases pieces.len(),
{
    if pieces.len() > 0 {
        let rest = pieces.drop_last();
        let last = pieces.len() - 1;
        let before = model::active_pieces(rest);
        let list = model::active_pieces(pieces);
        law_active_pieces(rest);
        let m = pieces[last];
        lemma_there(m.blocks, m.blocks.len() as int);
        assert(m.blocks.take(m.blocks.len() as int) =~= m.blocks);
        assert(m.active() == under_way(m)) by {
            if m.active() {
                let k = choose|k: int| 0 <= k < m.blocks.len() && !((#[trigger] m.blocks[k]) is Free);
                assert(m.blocks[k] != Block::Free);
                let j = choose|j: int| 0 <= j < m.blocks.len() && !((#[trigger] m.blocks[j]) is Obtained);
                assert(m.blocks[j] != Block::Obtained);
            }
            if under_way(m) {
                let k = choose|k: int| 0 <= k < m.blocks.len() && #[trigger] m.blocks[k] != Block::Free;
                assert(!(m.blocks[k] is Free));
                let j = choose|j: int|
                    0 <= j < m.blocks.len() && #[trigger] m.blocks[j] != Block::Obtained;
                assert(!(m.blocks[j] is Obtained));
            }
        }
        assert forall|i: int| 0 <= i < list.len() implies shows_piece(#[trigger] list[i], pieces) by {
            if i < before.len() {
                assert(list[i] == before[i]);
                assert(shows_piece(before[i], rest));
                assert(rest[before[i].index as int] == pieces[before[i].index as int]);
            }
        }
        assert forall|i: int, j: int| 0 <= i < j < list.len() implies (#[trigger] list[i]).index < (
        #[trigger] list[j]).index by {
            assert(list[i] == before[i]);
            assert(shows_piece(before[i], rest));
            if j < before.len() {
                assert(list[j] == before[j]);
            }
        }
        assert forall|p: int| 0 <= p < pieces.len() && under_way(#[trigger] pieces[p]) implies exists|
            i: int,
        |
            0 <= i < list.len() && (#[trigger] list[i]).index == p by {
            if p < last {
                assert(under_way(rest[p]));
                let i = choose|i: int| 0 <= i < before.len() && (#[trigger] before[i]).index == p;
                assert(list[i].index == p);
            } else {
                assert(list[before.len() as int].index == p);
            }
        }
    }
}

/// A transfer that starts has the pieces that it is said to have, whole, and
/// nothing of the others; nothing is asked of anyone, and the trackers are told
/// how far it is.
pub proof fn law_started(metadata: Metadata, have: Seq<u8>, p: int, k: int)
    requires
        metadata.wf(),
        have.len() == bitfield::bytes_for(metadata.num_pieces as int),
        0 <= p < metadata.num_pieces,
    ensures
        ({
            let m = transfer::started(metadata, have);
            let had = (have[p / 8] >> ((7 - p % 8) as u8)) & 1 == 1;
            &&& m.wf()
            &&& m.bits()[p] <==> had
            &&& m.pieces[p].written == had
            &&& 0 <= k < m.pieces[p].blocks.len() ==> m.pieces[p].blocks[k] == if had {
                Block::Obtained
            } else {
                Block::Free
            }
            &&& m.pieces[p].length == metadata.piece_len(p)
            &&& m.pieces[p].hash == metadata.pieces@[p]
            &&& m.connections.len() == 0
            &&& m.announced.downloaded + m.announced.left == metadata.length
            &&& m.announced.left == m.left()
            &&& m.announced.uploaded == 0 && m.uploaded == 0
        }),
{
    transfer::lemma_started_wf(metadata, have);
    bitfield::law_bit_order(have, p);
    laws::law_downloaded_and_left(transfer::started(metadata, have));
    assert(transfer::started(metadata, have).piece_ok(p));
}

/// A file of a torrent with several is shown by its path without the torrent's
/// own directory: that directory, a slash and what is shown are its whole path.
pub proof fn law_files_shown(files: Seq<metainfo::FileEntry>, i: int)
    requires
        0 <= i < files.len(),
        files[i].path@.len() >= 2,
    ensures
        ({
            let shown = transfer::shown_files(files);
            let path = text::texts(files[i].path@);
            &&& shown.len() == files.len()
            &&& shown[i].size == files[i].length
            &&& path[0] + seq!['/'] + shown[i].relative_path == text::joined(path, seq!['/'])
        }),
{
    let path = text::texts(files[i].path@);
    assert(seq![path[0]] + path.skip(1) =~= path);
    text::law_joined(path[0], path.skip(1), seq!['/']);
}

} // verus!
