//! What every operation of a transfer keeps: that its parts agree with each
//! other, and that its books balance.

use crate::assoc;
use crate::bitfield;
use crate::digest;
use crate::proto::bit_torrent::MessageModel;
use crate::torrent::piece;
use crate::torrent::piece::{Block, PieceModel};
use crate::torrent::transfer::connection::ConnectionModel;
use crate::torrent::transfer::model;
use crate::torrent::transfer::model::{PendingModel, TransferModel, BLOCK_SIZE, PIECE_CACHE_CAPACITY};
use crate::torrent::transfer::piece_cache;
use crate::types::PeerId;
use vstd::prelude::*;

verus! {

/// What changes when one connection is modified, and what does not.
pub proof fn lemma_modified(
    connections: Seq<(PeerId, ConnectionModel)>,
    peer: PeerId,
    f: spec_fn(ConnectionModel) -> ConnectionModel,
)
    requires
        assoc::distinct_keys(connections),
    ensures
        ({
            let after = model::modified(connections, peer, f);
            &&& after.len() == connections.len()
            &&& assoc::distinct_keys(after)
            &&& forall|i: int|
                0 <= i < after.len() ==> (#[trigger] after[i]).0 == connections[i].0 && after[i].1
                    == if connections[i].0 == peer {
                    f(connections[i].1)
                } else {
                    connections[i].1
                }
            &&& forall|q: PeerId| #[trigger]
                assoc::has_key(after, q) == assoc::has_key(connections, q)
            &&& forall|q: PeerId| #[trigger]
                model::outstanding(after, q) == if q == peer && assoc::has_key(connections, q) {
                    f(connections[assoc::index_of(connections, q)].1).sent_requests
                } else {
                    model::outstanding(connections, q)
                }
        }),
{
    let after = model::modified(connections, peer, f);
    if assoc::has_key(connections, peer) {
        let k = assoc::index_of(connections, peer);
        assert(assoc::key_at(connections, k, peer));
        assert forall|i: int| 0 <= i < after.len() implies (#[trigger] after[i]).0
            == connections[i].0 && after[i].1 == if connections[i].0 == peer {
            f(connections[i].1)
        } else {
            connections[i].1
        } by {
            if i < k {
                assert(connections[i].0 != connections[k].0);
            } else if k < i {
                assert(connections[k].0 != connections[i].0);
            }
        }
    } else {
        assert forall|i: int| 0 <= i < after.len() implies connections[i].0 != peer by {
            assert(!assoc::key_at(connections, i, peer));
        }
    }
    lemma_same_keys(connections, after);
    assert forall|q: PeerId| #[trigger]
        model::outstanding(after, q) == if q == peer && assoc::has_key(connections, q) {
            f(connections[assoc::index_of(connections, q)].1).sent_requests
        } else {
            model::outstanding(connections, q)
        } by {
        if assoc::has_key(connections, q) {
            let i = assoc::index_of(connections, q);
            assert(assoc::key_at(connections, i, q));
            assert(assoc::key_at(after, i, q));
            assoc::lemma_index_unique(after, i, q);
        }
    }
}

/// Lists with the same keys in the same order have the same keys.
pub proof fn lemma_same_keys(
    a: Seq<(PeerId, ConnectionModel)>,
    b: Seq<(PeerId, ConnectionModel)>,
)
    requires
        a.len() == b.len(),
        forall|i: int| 0 <= i < a.len() ==> (#[trigger] b[i]).0 == a[i].0,
        assoc::distinct_keys(a),
    ensures
        assoc::distinct_keys(b),
        forall|q: PeerId| #[trigger] assoc::has_key(b, q) == assoc::has_key(a, q),
        forall|q: PeerId|
            assoc::has_key(a, q) ==> #[trigger] assoc::index_of(b, q) == assoc::index_of(
                a,
                q,
            ),
{
    assert forall|i: int, j: int| 0 <= i < j < b.len() implies (#[trigger] b[i]).0 != (
    #[trigger] b[j]).0 by {
        assert(a[i].0 != a[j].0);
    }
    assert forall|q: PeerId| #[trigger]
        assoc::has_key(b, q) == assoc::has_key(a, q) by {
        if assoc::has_key(a, q) {
            let i = assoc::index_of(a, q);
            assert(assoc::key_at(a, i, q));
            assert(assoc::key_at(b, i, q));
        }
        if assoc::has_key(b, q) {
            let i = assoc::index_of(b, q);
            assert(assoc::key_at(b, i, q));
            assert(assoc::key_at(a, i, q));
        }
    }
    assert forall|q: PeerId| assoc::has_key(a, q) implies #[trigger] assoc::index_of(b, q)
        == assoc::index_of(a, q) by {
        let i = assoc::index_of(a, q);
        assert(assoc::key_at(a, i, q));
        assert(assoc::key_at(b, i, q));
        assoc::lemma_index_unique(b, i, q);
    }
}

/// Modifying a connection keeps a transfer's parts in agreement.
pub proof fn lemma_with_connection_wf(
    m: TransferModel,
    peer: PeerId,
    f: spec_fn(ConnectionModel) -> ConnectionModel,
)
    requires
        m.wf(),
        forall|c: ConnectionModel|
            c.wf(m.metadata.num_pieces as nat) ==> (#[trigger] f(c)).wf(
                m.metadata.num_pieces as nat,
            ) && f(c).id == c.id,
    ensures
        m.with_connection(peer, f).wf(),
{
    lemma_modified(m.connections, peer, f);
    let after = m.with_connection(peer, f);
    assert(after.bits() == m.bits());
    assert forall|p: int| 0 <= p < m.metadata.num_pieces implies after.piece_ok(p) by {
        assert(m.piece_ok(p));
    }
    assert forall|i: int| 0 <= i < after.cache.len() implies after.cached_ok(i) by {
        assert(m.cached_ok(i));
    }
}

/// Replacing a piece by one that fits keeps a transfer's parts in agreement.
pub proof fn lemma_with_piece_wf(m: TransferModel, p: int, x: PieceModel)
    requires
        m.wf(),
        0 <= p < m.metadata.num_pieces,
        x.wf(),
        x.block_size == BLOCK_SIZE,
        x.length == m.pieces[p].length,
        x.hash == m.pieces[p].hash,
        m.bits()[p] ==> x.complete() && x.written,
    ensures
        m.with_piece(p, x).wf(),
{
    let after = m.with_piece(p, x);
    assert(m.piece_ok(p));
    assert(after.bits() == m.bits());
    assert forall|q: int| 0 <= q < m.metadata.num_pieces implies after.piece_ok(q) by {
        assert(m.piece_ok(q));
    }
    assert forall|i: int| 0 <= i < after.cache.len() implies after.cached_ok(i) by {
        assert(m.cached_ok(i));
    }
}

/// Giving up a peer's requests keeps a transfer's parts in agreement.
pub proof fn lemma_reset_wf(m: TransferModel, peer: PeerId)
    requires
        m.wf(),
    ensures
        m.reset(peer).wf(),
{
    let after = m.reset(peer);
    assert(after.bits() == m.bits());
    assert forall|p: int| 0 <= p < m.metadata.num_pieces implies after.piece_ok(p) by {
        assert(m.piece_ok(p));
        if m.bits()[p] {
            assert forall|k: int| 0 <= k < after.pieces[p].blocks.len() implies (
            #[trigger] after.pieces[p].blocks[k]) is Obtained by {
                assert(m.pieces[p].blocks[k] is Obtained);
            }
        }
    }
    assert forall|i: int| 0 <= i < after.cache.len() implies after.cached_ok(i) by {
        assert(m.cached_ok(i));
    }
}

/// The piece that a connection works on next exists and has a free block.
pub proof fn lemma_next_piece(m: TransferModel, c: ConnectionModel)
    requires
        m.wf(),
        c.wf(m.metadata.num_pieces as nat),
    ensures
        m.next_piece(c) matches Some(p) ==> p < m.metadata.num_pieces
            && m.pieces[p as int].available(),
{
    lemma_shared_from(m, c.has, 0);
    lemma_open_from(m, c.has, 0);
}

proof fn lemma_shared_from(m: TransferModel, has: Seq<bool>, j: int)
    requires
        m.wf(),
        0 <= j,
    ensures
        m.shared_from(has, j) matches Some(p) ==> p < m.metadata.num_pieces
            && m.pieces[p as int].available(),
    decreases m.connections.len() - j,
{
    if j < m.connections.len() {
        assert(m.connections[j].1.wf(m.metadata.num_pieces as nat));
        lemma_shared_from(m, has, j + 1);
    }
}

proof fn lemma_open_from(m: TransferModel, has: Seq<bool>, p: int)
    requires
        m.wf(),
        0 <= p,
    ensures
        m.open_from(has, p) matches Some(q) ==> q < m.metadata.num_pieces
            && m.pieces[q as int].available(),
    decreases m.pieces.len() - p,
{
    if p < m.pieces.len() {
        lemma_open_from(m, has, p + 1);
    }
}

/// The first free block exists and is free.
pub proof fn lemma_first_free(m: PieceModel, k: int, peer: PeerId)
    requires
        0 <= k,
        m.blocks.len() <= usize::MAX,
    ensures
        m.first_free_from(k, peer) matches Some(b) ==> b < m.blocks.len()
            && m.blocks[b as int] is Free,
    decreases m.blocks.len() - k,
{
    if k < m.blocks.len() {
        lemma_first_free(m, k + 1, peer);
    }
}

/// A connection that moves to another piece keeps a transfer's parts in agreement.
pub proof fn lemma_with_cursor_wf(m: TransferModel, i: int, cursor: Option<usize>)
    requires
        m.wf(),
        0 <= i < m.connections.len(),
        cursor matches Some(p) ==> p < m.metadata.num_pieces,
    ensures
        m.with_cursor(i, cursor).wf(),
{
    let after = m.with_cursor(i, cursor);
    assert(m.connections[i].1.wf(m.metadata.num_pieces as nat));
    lemma_same_keys(m.connections, after.connections);
    assert(after.bits() == m.bits());
    assert forall|p: int| 0 <= p < m.metadata.num_pieces implies after.piece_ok(p) by {
        assert(m.piece_ok(p));
    }
    assert forall|j: int| 0 <= j < after.cache.len() implies after.cached_ok(j) by {
        assert(m.cached_ok(j));
    }
}

/// Asking for a free block keeps a transfer's parts in agreement.
pub proof fn lemma_request_wf(m: TransferModel, i: int, p: usize, b: usize, now: u64)
    requires
        m.wf(),
        0 <= i < m.connections.len(),
        p < m.metadata.num_pieces,
        b < m.pieces[p as int].blocks.len(),
        m.pieces[p as int].blocks[b as int] is Free,
    ensures
        m.request(i, p, b, now).wf(),
{
    let after = m.request(i, p, b, now);
    assert(m.connections[i].1.wf(m.metadata.num_pieces as nat));
    assert(m.piece_ok(p as int));
    assert(!m.bits()[p as int]);
    lemma_same_keys(m.connections, after.connections);
    assert(after.bits() == m.bits());
    assert forall|q: int| 0 <= q < m.metadata.num_pieces implies after.piece_ok(q) by {
        assert(m.piece_ok(q));
    }
    assert forall|j: int| 0 <= j < after.cache.len() implies after.cached_ok(j) by {
        assert(m.cached_ok(j));
    }
}

/// A transfer's parts that dispatching requests leaves alone.
pub open spec fn same_but_requests(a: TransferModel, b: TransferModel) -> bool {
    &&& a.metadata == b.metadata
    &&& a.have == b.have
    &&& a.cache == b.cache
    &&& a.downloaded_pieces == b.downloaded_pieces
    &&& a.uploaded == b.uploaded
    &&& a.announced == b.announced
    &&& a.connections.len() == b.connections.len()
    &&& a.pieces.len() == b.pieces.len()
    &&& forall|i: int|
        0 <= i < a.connections.len() ==> (#[trigger] b.connections[i]).0 == a.connections[i].0
}

/// Dispatching to one connection keeps a transfer's parts in agreement.
pub proof fn lemma_dispatch_one_wf(m: TransferModel, i: int, now: u64)
    requires
        m.wf(),
    ensures
        m.dispatch_one(i, now).wf(),
        same_but_requests(m, m.dispatch_one(i, now)),
    decreases
            (if 0 <= i < m.connections.len() {
                m.connections[i].1.max_requests - m.connections[i].1.sent_requests
            } else {
                0
            }),
{
    if 0 <= i < m.connections.len() && m.connections[i].1.can_request() {
        let c = m.connections[i].1;
        assert(c.wf(m.metadata.num_pieces as nat));
        lemma_next_piece(m, c);
        match m.next_piece(c) {
            None => {
                lemma_with_cursor_wf(m, i, None);
            },
            Some(p) => {
                lemma_with_cursor_wf(m, i, Some(p));
                let at = m.with_cursor(i, Some(p));
                assert(at.piece_ok(p as int));
                lemma_blocks_fit(at.pieces[p as int]);
                lemma_first_free(at.pieces[p as int], 0, m.connections[i].0);
                if let Some(b) = at.pieces[p as int].first_free(m.connections[i].0) {
                    lemma_request_wf(at, i, p, b, now);
                    lemma_dispatch_one_wf(at.request(i, p, b, now), i, now);
                }
            },
        }
    }
}

/// There are no more blocks than bytes.
pub proof fn lemma_blocks_fit(m: PieceModel)
    requires
        m.wf(),
    ensures
        m.blocks.len() <= m.length,
{
    if m.blocks.len() > 0 {
        piece::lemma_block_bounds(m, m.blocks.len() - 1);
    }
}

/// Dispatching keeps a transfer's parts in agreement.
pub proof fn lemma_dispatch_wf(m: TransferModel, n: nat, now: u64)
    requires
        m.wf(),
    ensures
        m.dispatch_upto(n, now).wf(),
        same_but_requests(m, m.dispatch_upto(n, now)),
    decreases n,
{
    if n > 0 {
        lemma_dispatch_wf(m, (n - 1) as nat, now);
        lemma_dispatch_one_wf(m.dispatch_upto((n - 1) as nat, now), n - 1, now);
    }
}

/// A block placed leaves a piece that fits.
pub proof fn lemma_place_wf(m: PieceModel, k: int, block: Seq<u8>, release: bool)
    requires
        m.wf(),
    ensures
        m.place(k, block, release).0.wf(),
        m.place(k, block, release).0.block_size == m.block_size,
        m.place(k, block, release).0.length == m.length,
        m.place(k, block, release).0.hash == m.hash,
        m.place(k, block, release).1 matches Some(data) ==> data.len() == m.length
            && m.place(k, block, release).0.complete() && m.place(k, block, release).0.written
            == release,
{
    if 0 <= k < m.blocks.len() && block.len() == m.block_length(k) {
        let data = m.filled(k, block);
        let next = PieceModel { blocks: m.blocks.update(k, Block::Obtained), data, ..m };
        if next.complete() {
            let done = m.place(k, block, release).0;
            if m.place(k, block, release).1 is Some {
                assert(done.blocks == next.blocks);
            }
        }
    }
}

/// A message keeps a transfer's parts in agreement; a piece to write is
/// complete, of the right length and not had yet; a piece to read is had.
pub proof fn law_step_wf(m: TransferModel, peer: PeerId, message: MessageModel)
    requires
        m.wf(),
    ensures
        m.step(peer, message) matches Ok((next, pending)) ==> {
            &&& next.wf()
            &&& next.metadata == m.metadata
            &&& next.have == m.have
            &&& pending matches PendingModel::Write { index, piece } ==> {
                &&& index < m.metadata.num_pieces
                &&& !next.bits()[index as int]
                &&& next.pieces[index as int].complete()
                &&& next.pieces[index as int].written
                &&& piece.len() == m.metadata.piece_len(index as int)
            }
            &&& pending matches PendingModel::Read { index, begin, length, .. } ==> {
                &&& index < m.metadata.num_pieces
                &&& begin + length <= m.metadata.piece_len(index as int)
                &&& next.bits()[index as int]
                &&& next == m
            }
        },
{
    let n = m.metadata.num_pieces as nat;
    match message {
        MessageModel::Bitfield(bytes) => {
            lemma_with_connection_wf(
                m,
                peer,
                |c: ConnectionModel| ConnectionModel { has: bitfield::bits_of(bytes, n as int), ..c },
            );
        },
        MessageModel::Have { index } => {
            if index < n {
                lemma_with_connection_wf(
                    m,
                    peer,
                    |c: ConnectionModel|
                        ConnectionModel { has: c.has.update(index as int, true), ..c },
                );
            }
        },
        MessageModel::Request { index, begin, length } => {
            if model::length_error(m.metadata, index, begin, length, false, model::Op::Request)
                is None {
                lemma_serve_wf(m, peer, index, begin, length);
            }
        },
        MessageModel::Piece { index, begin, piece, response_time } => {
            if model::begin_error(m.metadata, index, begin, true, model::Op::Piece) is None {
                lemma_receive_wf(m, peer, index, begin, piece, response_time);
            }
        },
        MessageModel::Choked(choked) => {
            let f = |c: ConnectionModel| c.set_peer_choking(choked);
            lemma_with_connection_wf(m, peer, f);
            lemma_reset_wf(m.with_connection(peer, f), peer);
        },
        MessageModel::Interested(interested) => {
            lemma_with_connection_wf(
                m,
                peer,
                |c: ConnectionModel|
                    (ConnectionModel { peer_interested: interested, ..c }).set_am_choking(false),
            );
        },
        MessageModel::Reject { index, begin, length } => {
            if model::length_error(m.metadata, index, begin, length, true, model::Op::Reject)
                is None {
                let k = begin as int / BLOCK_SIZE as int;
                let at = m.pieces[index as int];
                assert(m.piece_ok(index as int));
                let f = |c: ConnectionModel| c.reject();
                lemma_with_connection_wf(m, peer, f);
                if at.asked(k) == Some(peer) {
                    assert(!m.bits()[index as int]);
                    lemma_with_piece_wf(
                        m.with_connection(peer, f),
                        index as int,
                        at.reject(k, peer),
                    );
                }
            }
        },
        MessageModel::HaveAll => {
            lemma_with_connection_wf(
                m,
                peer,
                |c: ConnectionModel|
                    ConnectionModel { has: Seq::new(c.has.len(), |i: int| true), ..c },
            );
        },
        MessageModel::HaveNone => {
            lemma_with_connection_wf(
                m,
                peer,
                |c: ConnectionModel|
                    ConnectionModel { has: Seq::new(c.has.len(), |i: int| false), ..c },
            );
        },
        _ => {},
    }
}

/// Using a cached piece keeps what the cache is about.
pub proof fn lemma_touched(s: Seq<(usize, Seq<u8>)>, index: usize)
    requires
        piece_cache::distinct(s),
    ensures
        piece_cache::distinct(piece_cache::touched(s, index)),
        piece_cache::touched(s, index).len() == s.len(),
        forall|i: int|
            0 <= i < s.len() ==> s.contains(#[trigger] piece_cache::touched(s, index)[i]),
{
    let t = piece_cache::touched(s, index);
    if piece_cache::holds(s, index) {
        let k = piece_cache::position(s, index);
        assert(piece_cache::key_at(s, k, index));
        assert forall|i: int| 0 <= i < s.len() implies s.contains(#[trigger] t[i]) by {
            if i == s.len() - 1 {
                assert(t[i] == s[k]);
            } else if i < k {
                assert(t[i] == s[i]);
            } else {
                assert(t[i] == s[i + 1]);
            }
        }
        assert forall|i: int, j: int| 0 <= i < j < t.len() implies (#[trigger] t[i]).0 != (
        #[trigger] t[j]).0 by {
            let a = if i < k {
                i
            } else {
                i + 1
            };
            let b = if j == s.len() - 1 {
                k
            } else if j < k {
                j
            } else {
                j + 1
            };
            assert(t[i] == s[a]);
            assert(t[j] == s[b]);
            if a < b {
                assert(s[a].0 != s[b].0);
            } else {
                assert(s[b].0 != s[a].0);
            }
        }
    } else {
        assert forall|i: int| 0 <= i < s.len() implies s.contains(#[trigger] t[i]) by {
            assert(t[i] == s[i]);
        }
    }
}

/// A piece that was read joins the ones that the cache is about.
pub proof fn lemma_inserted(s: Seq<(usize, Seq<u8>)>, capacity: usize, index: usize, whole: Seq<u8>)
    requires
        piece_cache::distinct(s),
        s.len() <= capacity,
        capacity > 0,
    ensures
        piece_cache::distinct(piece_cache::inserted(s, capacity, index, whole)),
        piece_cache::inserted(s, capacity, index, whole).len() <= capacity,
        forall|i: int|
            0 <= i < piece_cache::inserted(s, capacity, index, whole).len() ==> (
            #[trigger] piece_cache::inserted(s, capacity, index, whole)[i] == (index, whole)
                || exists|j: int|
                0 <= j < s.len() && piece_cache::inserted(s, capacity, index, whole)[i]
                    == #[trigger] s[j]),
{
    let t = piece_cache::inserted(s, capacity, index, whole);
    let without = if piece_cache::holds(s, index) {
        s.remove(piece_cache::position(s, index))
    } else {
        s
    };
    let k = if piece_cache::holds(s, index) {
        piece_cache::position(s, index)
    } else {
        s.len() as int
    };
    if piece_cache::holds(s, index) {
        assert(piece_cache::key_at(s, k, index));
    }
    let shift = if without.len() >= capacity {
        1int
    } else {
        0int
    };
    assert forall|i: int| 0 <= i < t.len() implies (#[trigger] t[i] == (index, whole) || exists|
        j: int,
    |
        0 <= j < s.len() && t[i] == #[trigger] s[j]) by {
        if i < t.len() - 1 {
            let a = i + shift;
            assert(t[i] == without[a]);
            if a < k {
                assert(t[i] == s[a]);
            } else {
                assert(t[i] == s[a + 1]);
            }
        }
    }
    assert forall|i: int, j: int| 0 <= i < j < t.len() implies (#[trigger] t[i]).0 != (
    #[trigger] t[j]).0 by {
        let a = if i + shift < k {
            i + shift
        } else {
            i + shift + 1
        };
        assert(t[i] == s[a]);
        if j < t.len() - 1 {
            let b = if j + shift < k {
                j + shift
            } else {
                j + shift + 1
            };
            assert(t[j] == s[b]);
            assert(s[a].0 != s[b].0);
        } else if piece_cache::holds(s, index) {
            if a < k {
                assert(s[a].0 != s[k].0);
            } else {
                assert(s[k].0 != s[a].0);
            }
        } else {
            assert(!piece_cache::key_at(s, a, index));
        }
    }
}

proof fn lemma_serve_wf(m: TransferModel, peer: PeerId, index: usize, begin: usize, length: usize)
    requires
        m.wf(),
        index < m.metadata.num_pieces,
        begin + length <= m.metadata.piece_len(index as int),
    ensures
        m.serve(peer, index, begin, length).0.wf(),
        m.serve(peer, index, begin, length).0.have == m.have,
        m.serve(peer, index, begin, length).1 is Read ==> m.bits()[index as int],
{
    let whole = piece_cache::held(m.cache, index);
    let f = |c: ConnectionModel|
        c.send_piece(index, begin, whole.subrange(begin as int, begin + length));
    let g = |c: ConnectionModel| c.send(MessageModel::Reject { index, begin, length });
    lemma_with_connection_wf(m, peer, f);
    lemma_with_connection_wf(m, peer, g);
    lemma_touched(m.cache, index);
    let sent = m.with_connection(peer, f);
    let after = TransferModel { cache: piece_cache::touched(m.cache, index), ..sent };
    assert(after.bits() == sent.bits());
    assert forall|p: int| 0 <= p < m.metadata.num_pieces implies after.piece_ok(p) by {
        assert(sent.piece_ok(p));
    }
    assert forall|i: int| 0 <= i < after.cache.len() implies after.cached_ok(i) by {
        let j = choose|j: int|
            0 <= j < m.cache.len() && piece_cache::touched(m.cache, index)[i]
                == #[trigger] m.cache[j];
        assert(m.cached_ok(j));
    }
    assert(after.wf());
}

proof fn lemma_receive_wf(
    m: TransferModel,
    peer: PeerId,
    index: usize,
    begin: usize,
    block: Seq<u8>,
    response_time: Option<u64>,
)
    requires
        m.wf(),
        index < m.metadata.num_pieces,
        begin < m.metadata.piece_len(index as int),
    ensures
        ({
            let (next, pending) = m.receive(peer, index, begin, block, response_time);
            &&& next.wf()
            &&& next.have == m.have
            &&& next.metadata == m.metadata
            &&& pending matches PendingModel::Write { index: w, piece } ==> {
                &&& w == index
                &&& !next.bits()[index as int]
                &&& next.pieces[index as int].complete()
                &&& next.pieces[index as int].written
                &&& piece.len() == m.metadata.piece_len(index as int)
            }
            &&& !(pending is Read)
        }),
{
    let k = begin as int / BLOCK_SIZE as int;
    let at = m.pieces[index as int];
    assert(m.piece_ok(index as int));
    piece::lemma_offset_block(at, begin as int);
    if !at.obtained(k) {
        assert(!m.bits()[index as int]) by {
            if m.bits()[index as int] {
                assert(at.blocks[k] is Obtained);
            }
        }
        let who = at.asked(k);
        let f = |c: ConnectionModel|
            c.receive_piece(block.len(), response_time, who == Some(peer));
        lemma_receive_counted_wf(m, peer, block.len(), response_time, who == Some(peer));
        let counted = m.with_connection(peer, f);
        let g = |c: ConnectionModel| c.sub_sent_requests(1);
        let answered = if who is Some && who != Some(peer) {
            counted.with_connection(who->0, g)
        } else {
            counted
        };
        if who is Some && who != Some(peer) {
            lemma_with_connection_wf(counted, who->0, g);
        }
        lemma_place_wf(at, k, block, true);
        lemma_with_piece_wf(answered, index as int, at.place(k, block, true).0);
    }
}

/// Counting a block leaves a transfer's parts in agreement.
pub proof fn lemma_receive_counted_wf(
    m: TransferModel,
    peer: PeerId,
    length: nat,
    response_time: Option<u64>,
    asked: bool,
)
    requires
        m.wf(),
    ensures
        m.with_connection(
            peer,
            |c: ConnectionModel| c.receive_piece(length, response_time, asked),
        ).wf(),
{
    let f = |c: ConnectionModel| c.receive_piece(length, response_time, asked);
    assert forall|c: ConnectionModel| c.wf(m.metadata.num_pieces as nat) implies (
    #[trigger] f(c)).wf(m.metadata.num_pieces as nat) && f(c).id == c.id by {
        lemma_one_more(c.num_response_times);
    }
    lemma_with_connection_wf(m, peer, f);
}

proof fn lemma_one_more(n: nat)
    ensures
        (n + 1) * u64::MAX == n * u64::MAX + u64::MAX,
{
    assert((n + 1) * u64::MAX == n * u64::MAX + u64::MAX) by (nonlinear_arith);
}

/// A cache that is replaced by one of fitting pieces keeps a transfer's parts in
/// agreement.
proof fn lemma_with_cache_wf(m: TransferModel, cache: Seq<(usize, Seq<u8>)>)
    requires
        m.wf(),
        piece_cache::distinct(cache),
        cache.len() <= PIECE_CACHE_CAPACITY,
        forall|i: int| 0 <= i < cache.len() ==> (TransferModel { cache, ..m }).cached_ok(i),
    ensures
        (TransferModel { cache, ..m }).wf(),
{
    let after = TransferModel { cache, ..m };
    assert(after.bits() == m.bits());
    assert forall|p: int| 0 <= p < m.metadata.num_pieces implies after.piece_ok(p) by {
        assert(m.piece_ok(p));
    }
}

/// What is there before requests go out after a read.
pub open spec fn after_read(
    m: TransferModel,
    peer: PeerId,
    index: usize,
    begin: usize,
    length: usize,
    whole: Seq<u8>,
) -> TransferModel {
    TransferModel {
        cache: piece_cache::inserted(m.cache, PIECE_CACHE_CAPACITY, index, whole),
        ..m.with_connection(
            peer,
            |c: ConnectionModel|
                c.send_piece(index, begin, whole.subrange(begin as int, begin + length)),
        )
    }
}

/// A finished read keeps a transfer's parts in agreement.
pub proof fn law_finish_read_wf(
    m: TransferModel,
    peer: PeerId,
    index: usize,
    begin: usize,
    length: usize,
    whole: Seq<u8>,
    now: u64,
)
    requires
        m.wf(),
        index < m.metadata.num_pieces,
        whole.len() == m.metadata.piece_len(index as int),
    ensures
        after_read(m, peer, index, begin, length, whole).wf(),
        m.finish_read(peer, index, begin, length, whole, now).wf(),
{
    let f = |c: ConnectionModel|
        c.send_piece(index, begin, whole.subrange(begin as int, begin + length));
    lemma_with_connection_wf(m, peer, f);
    let sent = m.with_connection(peer, f);
    lemma_inserted(m.cache, PIECE_CACHE_CAPACITY, index, whole);
    let cache = piece_cache::inserted(m.cache, PIECE_CACHE_CAPACITY, index, whole);
    let after = TransferModel { cache, ..sent };
    assert forall|i: int| 0 <= i < cache.len() implies after.cached_ok(i) by {
        if cache[i] != (index, whole) {
            let j = choose|j: int| 0 <= j < m.cache.len() && cache[i] == #[trigger] m.cache[j];
            assert(m.cached_ok(j));
        }
    }
    lemma_with_cache_wf(sent, cache);
    lemma_dispatch_wf(after, after.connections.len(), now);
}

/// What is there before requests go out after a write.
pub open spec fn after_write(m: TransferModel, index: usize) -> TransferModel {
    let had = TransferModel {
        have: bitfield::with_bit(m.have, index as int),
        downloaded_pieces: m.downloaded_pieces + 1,
        ..m
    };
    TransferModel {
        announced: crate::proto::tracker::Progress {
            downloaded: had.downloaded() as usize,
            left: had.left() as usize,
            uploaded: had.uploaded as usize,
            event: crate::proto::tracker::Event::Started,
        },
        ..had.broadcast(MessageModel::Have { index })
    }
}

/// A finished write keeps a transfer's parts in agreement.
pub proof fn law_finish_write_wf(m: TransferModel, index: usize, now: u64)
    requires
        m.wf(),
        index < m.metadata.num_pieces,
        !m.bits()[index as int],
        m.pieces[index as int].complete(),
        m.pieces[index as int].written,
    ensures
        after_write(m, index).wf(),
        m.finish_write(index, now).wf(),
        m.finish_write(index, now).bits() == m.bits().update(index as int, true),
        m.downloaded_pieces < m.metadata.num_pieces,
{
    let n = m.metadata.num_pieces as int;
    bitfield::lemma_with_bit(m.have, n, index as int);
    bitfield::lemma_count_set_update(m.bits(), index as int);
    let after = after_write(m, index);
    bitfield::lemma_count_set_bound(after.bits());
    lemma_same_keys(m.connections, after.connections);
    assert(after.bits() == m.bits().update(index as int, true));
    assert forall|p: int| 0 <= p < n implies after.piece_ok(p) by {
        assert(m.piece_ok(p));
    }
    assert forall|i: int| 0 <= i < after.cache.len() implies after.cached_ok(i) by {
        assert(m.cached_ok(i));
    }
    assert forall|i: int| 0 <= i < after.connections.len() implies (
    #[trigger] after.connections[i]).1.wf(n as nat) && after.connections[i].1.id
        == after.connections[i].0 by {
        assert(m.connections[i].1.wf(n as nat));
    }
    lemma_dispatch_wf(after, after.connections.len(), now);
}

/// A severed connection leaves a transfer's parts in agreement.
pub proof fn law_sever_wf(m: TransferModel, peer: PeerId)
    requires
        m.wf(),
    ensures
        m.sever(peer).wf(),
        !assoc::has_key(m.sever(peer).connections, peer),
{
    lemma_reset_wf(m, peer);
    let base = m.reset(peer);
    let after = m.sever(peer);
    lemma_removed(m.connections, peer);
    assert(after.bits() == base.bits());
    assert forall|p: int| 0 <= p < m.metadata.num_pieces implies after.piece_ok(p) by {
        assert(base.piece_ok(p));
    }
    assert forall|i: int| 0 <= i < after.cache.len() implies after.cached_ok(i) by {
        assert(base.cached_ok(i));
    }
}

/// What is left when an entry is taken out.
pub proof fn lemma_removed(connections: Seq<(PeerId, ConnectionModel)>, peer: PeerId)
    requires
        assoc::distinct_keys(connections),
    ensures
        assoc::distinct_keys(assoc::removed(connections, peer)),
        !assoc::has_key(assoc::removed(connections, peer), peer),
        forall|i: int|
            0 <= i < assoc::removed(connections, peer).len() ==> connections.contains(
                #[trigger] assoc::removed(connections, peer)[i],
            ),
        forall|q: PeerId| #[trigger]
            model::outstanding(assoc::removed(connections, peer), q) == if q == peer {
                0
            } else {
                model::outstanding(connections, q)
            },
{
    let after = assoc::removed(connections, peer);
    if assoc::has_key(connections, peer) {
        let k = assoc::index_of(connections, peer);
        assert(assoc::key_at(connections, k, peer));
        assert forall|i: int| 0 <= i < after.len() implies connections.contains(
            #[trigger] after[i],
        ) by {
            if i < k {
                assert(after[i] == connections[i]);
            } else {
                assert(after[i] == connections[i + 1]);
            }
        }
        assert forall|i: int| !assoc::key_at(after, i, peer) by {
            if 0 <= i < after.len() {
                if i < k {
                    assert(connections[i].0 != connections[k].0);
                } else {
                    assert(connections[k].0 != connections[i + 1].0);
                }
            }
        }
        assert forall|q: PeerId| q != peer implies #[trigger] model::outstanding(after, q)
            == model::outstanding(connections, q) by {
            if assoc::has_key(connections, q) {
                let i = assoc::index_of(connections, q);
                assert(assoc::key_at(connections, i, q));
                let j = if i < k {
                    i
                } else {
                    i - 1
                };
                assert(after[j] == connections[i]);
                assert(assoc::key_at(after, j, q));
                assoc::lemma_index_unique(after, j, q);
            } else {
                if assoc::has_key(after, q) {
                    let j = assoc::index_of(after, q);
                    assert(assoc::key_at(after, j, q));
                    let i = if j < k {
                        j
                    } else {
                        j + 1
                    };
                    assert(assoc::key_at(connections, i, q));
                }
            }
        }
    } else {
        assert forall|i: int| 0 <= i < after.len() implies connections.contains(
            #[trigger] after[i],
        ) by {
            assert(after[i] == connections[i]);
        }
    }
}

/// What is there once an entry is put in.
pub proof fn lemma_put(
    connections: Seq<(PeerId, ConnectionModel)>,
    peer: PeerId,
    c: ConnectionModel,
)
    requires
        assoc::distinct_keys(connections),
    ensures
        assoc::distinct_keys(assoc::inserted(connections, peer, c)),
        forall|i: int|
            0 <= i < assoc::inserted(connections, peer, c).len() ==> (
            #[trigger] assoc::inserted(connections, peer, c)[i] == (peer, c)
                || connections.contains(assoc::inserted(connections, peer, c)[i])),
        forall|q: PeerId| #[trigger]
            model::outstanding(assoc::inserted(connections, peer, c), q) == if q == peer {
                c.sent_requests
            } else {
                model::outstanding(connections, q)
            },
{
    let after = assoc::inserted(connections, peer, c);
    if assoc::has_key(connections, peer) {
        let k = assoc::index_of(connections, peer);
        assert(assoc::key_at(connections, k, peer));
        lemma_same_keys(connections, after);
        assert forall|q: PeerId| #[trigger]
            model::outstanding(after, q) == if q == peer {
                c.sent_requests
            } else {
                model::outstanding(connections, q)
            } by {
            if assoc::has_key(connections, q) {
                let i = assoc::index_of(connections, q);
                assert(assoc::key_at(connections, i, q));
                assert(assoc::index_of(after, q) == i);
            }
        }
        assert forall|i: int| 0 <= i < after.len() implies (#[trigger] after[i] == (peer, c)
            || connections.contains(after[i])) by {
            if i != k {
                assert(after[i] == connections[i]);
            }
        }
    } else {
        let k = connections.len() as int;
        assert forall|i: int| 0 <= i < k implies connections[i].0 != peer by {
            assert(!assoc::key_at(connections, i, peer));
        }
        assert forall|i: int| 0 <= i < after.len() implies (#[trigger] after[i] == (peer, c)
            || connections.contains(after[i])) by {
            if i != k {
                assert(after[i] == connections[i]);
            }
        }
        assert(assoc::key_at(after, k, peer));
        assoc::lemma_index_unique(after, k, peer);
        assert forall|q: PeerId| q != peer implies #[trigger] model::outstanding(after, q)
            == model::outstanding(connections, q) by {
            if assoc::has_key(connections, q) {
                let i = assoc::index_of(connections, q);
                assert(assoc::key_at(connections, i, q));
                assert(assoc::key_at(after, i, q));
                assoc::lemma_index_unique(after, i, q);
            } else if assoc::has_key(after, q) {
                let i = assoc::index_of(after, q);
                assert(assoc::key_at(after, i, q));
                assert(assoc::key_at(connections, i, q));
            }
        }
    }
}

/// A new connection leaves a transfer's parts in agreement.
pub proof fn law_add_connection_wf(m: TransferModel, peer: PeerId, supports_fast: bool)
    requires
        m.wf(),
    ensures
        m.add_connection(peer, supports_fast).wf(),
{
    let c = m.greeted(peer, supports_fast);
    lemma_put(m.connections, peer, c);
    let after = m.add_connection(peer, supports_fast);
    assert(after.bits() == m.bits());
    assert(c.wf(m.metadata.num_pieces as nat));
    assert forall|p: int| 0 <= p < m.metadata.num_pieces implies after.piece_ok(p) by {
        assert(m.piece_ok(p));
    }
    assert forall|i: int| 0 <= i < after.cache.len() implies after.cached_ok(i) by {
        assert(m.cached_ok(i));
    }
}

/// How timeouts show in each connection.
pub proof fn lemma_timed_out(connections: Seq<(PeerId, ConnectionModel)>, late: Seq<PeerId>)
    requires
        assoc::distinct_keys(connections),
    ensures
        ({
            let after = model::timed_out(connections, late);
            &&& after.len() == connections.len()
            &&& assoc::distinct_keys(after)
            &&& forall|i: int|
                0 <= i < after.len() ==> #[trigger] after[i] == (
                    connections[i].0,
                    connections[i].1.timeout(piece::occurrences(late, connections[i].0)),
                )
        }),
    decreases late.len(),
{
    if late.len() > 0 {
        let before = model::timed_out(connections, late.drop_last());
        lemma_timed_out(connections, late.drop_last());
        let f = |c: ConnectionModel| c.timeout(1);
        lemma_modified(before, late.last(), f);
        let after = model::timed_out(connections, late);
        assert forall|i: int| 0 <= i < after.len() implies #[trigger] after[i] == (
            connections[i].0,
            connections[i].1.timeout(piece::occurrences(late, connections[i].0)),
        ) by {
            assert(before[i].0 == connections[i].0);
        }
    } else {
        assert forall|i: int| 0 <= i < connections.len() implies #[trigger] connections[i] == (
            connections[i].0,
            connections[i].1.timeout(piece::occurrences(late, connections[i].0)),
        ) by {
            assert(connections[i].1 =~= connections[i].1.timeout(0));
        }
    }
}

/// Giving late requests up leaves a transfer's parts in agreement.
pub proof fn lemma_expire_wf(m: TransferModel, n: nat, now: u64)
    requires
        m.wf(),
        n <= m.pieces.len(),
    ensures
        m.expire_upto(n, now).wf(),
        same_but_requests(m, m.expire_upto(n, now)),
        forall|p: int|
            n <= p < m.pieces.len() ==> #[trigger] m.expire_upto(n, now).pieces[p] == m.pieces[p],
    decreases n,
{
    if n > 0 {
        lemma_expire_wf(m, (n - 1) as nat, now);
        let before = m.expire_upto((n - 1) as nat, now);
        let after = m.expire_upto(n, now);
        let late = piece::late_peers(before.pieces[n - 1].blocks, now);
        lemma_timed_out(before.connections, late);
        assert(before.piece_ok(n - 1));
        assert(after.bits() == before.bits());
        assert forall|p: int| 0 <= p < m.metadata.num_pieces implies after.piece_ok(p) by {
            assert(before.piece_ok(p));
            if before.bits()[p] && p == n - 1 {
                assert forall|k: int| 0 <= k < after.pieces[p].blocks.len() implies (
                #[trigger] after.pieces[p].blocks[k]) is Obtained by {
                    assert(before.pieces[p].blocks[k] is Obtained);
                }
            }
        }
        assert forall|i: int| 0 <= i < after.cache.len() implies after.cached_ok(i) by {
            assert(before.cached_ok(i));
        }
        assert forall|i: int| 0 <= i < after.connections.len() implies (
        #[trigger] after.connections[i]).1.wf(m.metadata.num_pieces as nat)
            && after.connections[i].1.id == after.connections[i].0 by {
            assert(before.connections[i].1.wf(m.metadata.num_pieces as nat));
        }
    }
}

/// The end of a second leaves a transfer's parts in agreement.
pub proof fn lemma_statistics_wf(m: TransferModel)
    requires
        m.wf(),
    ensures
        m.statistics().wf(),
{
    let after = m.statistics();
    lemma_same_keys(m.connections, after.connections);
    assert(after.bits() == m.bits());
    assert forall|p: int| 0 <= p < m.metadata.num_pieces implies after.piece_ok(p) by {
        assert(m.piece_ok(p));
    }
    assert forall|i: int| 0 <= i < after.cache.len() implies after.cached_ok(i) by {
        assert(m.cached_ok(i));
    }
    assert forall|i: int| 0 <= i < after.connections.len() implies (
    #[trigger] after.connections[i]).1.wf(m.metadata.num_pieces as nat)
        && after.connections[i].1.id == after.connections[i].0 by {
        assert(m.connections[i].1.wf(m.metadata.num_pieces as nat));
    }
}

/// A tick leaves a transfer's parts in agreement.
pub proof fn law_tick_wf(m: TransferModel, now: u64)
    requires
        m.wf(),
    ensures
        m.tick(now).wf(),
{
    lemma_expire_wf(m, m.pieces.len(), now);
    let expired = m.expire_upto(m.pieces.len(), now);
    lemma_statistics_wf(expired);
    lemma_dispatch_wf(expired.statistics(), expired.connections.len(), now);
}

/// How one piece's change shows in a peer's total.
pub proof fn lemma_total_update(pieces: Seq<PieceModel>, p: int, x: PieceModel, peer: PeerId)
    requires
        0 <= p < pieces.len(),
    ensures
        model::total_asked(pieces.update(p, x), peer) == model::total_asked(pieces, peer)
            - piece::count_asked(pieces[p].blocks, peer) + piece::count_asked(x.blocks, peer),
        piece::count_asked(pieces[p].blocks, peer) <= model::total_asked(pieces, peer),
    decreases pieces.len(),
{
    let u = pieces.update(p, x);
    if p == pieces.len() - 1 {
        assert(u.drop_last() =~= pieces.drop_last());
    } else {
        assert(u.drop_last() =~= pieces.drop_last().update(p, x));
        lemma_total_update(pieces.drop_last(), p, x, peer);
    }
}

/// Giving up a peer's requests leaves it none and every other peer its own.
pub proof fn lemma_total_reset(m: TransferModel, gone: PeerId, peer: PeerId)
    ensures
        model::total_asked(m.reset(gone).pieces, peer) == if peer == gone {
            0
        } else {
            model::total_asked(m.pieces, peer)
        },
    decreases m.pieces.len(),
{
    let after = m.reset(gone).pieces;
    if m.pieces.len() > 0 {
        let shorter = TransferModel { pieces: m.pieces.drop_last(), ..m };
        lemma_total_reset(shorter, gone, peer);
        assert(after.drop_last() =~= shorter.reset(gone).pieces);
        piece::lemma_count_reset(m.pieces.last(), gone, peer);
    }
}

/// Where what is asked of a peer is what its connection counts, it is still so,
/// and the peer is connected where it was.
pub open spec fn keeps_books(m: TransferModel, next: TransferModel, q: PeerId) -> bool {
    &&& m.balanced_for(q) ==> next.balanced_for(q)
    &&& assoc::has_key(next.connections, q) == assoc::has_key(m.connections, q)
}

/// What unbalances the books of no peer leaves them all balanced, and those of
/// the connected peers.
proof fn lemma_all_books(m: TransferModel, next: TransferModel)
    requires
        forall|q: PeerId| #[trigger] keeps_books(m, next, q),
    ensures
        m.balanced() ==> next.balanced(),
        m.connections_balanced() ==> next.connections_balanced(),
{
    assert forall|q: PeerId|
        (m.balanced_for(q) ==> #[trigger] next.balanced_for(q)) && assoc::has_key(
            next.connections,
            q,
        ) == assoc::has_key(m.connections, q) by {
        assert(keeps_books(m, next, q));
    }
}

/// A modification that leaves the number of requests alone keeps the books
/// balanced.
proof fn lemma_quiet_balanced(
    m: TransferModel,
    peer: PeerId,
    f: spec_fn(ConnectionModel) -> ConnectionModel,
    q: PeerId,
)
    requires
        m.wf(),
        forall|c: ConnectionModel| (#[trigger] f(c)).sent_requests == c.sent_requests,
    ensures
        keeps_books(m, m.with_connection(peer, f), q),
{
    lemma_modified(m.connections, peer, f);
}

/// No message unbalances the books of a peer.
proof fn lemma_step_balanced(m: TransferModel, peer: PeerId, message: MessageModel, q: PeerId)
    requires
        m.wf(),
    ensures
        m.step(peer, message) matches Ok((next, _)) ==> keeps_books(m, next, q),
{
    let n = m.metadata.num_pieces as nat;
    match message {
        MessageModel::Bitfield(bytes) => {
            lemma_quiet_balanced(
                m,
                peer,
                |c: ConnectionModel| ConnectionModel { has: bitfield::bits_of(bytes, n as int), ..c },
                q,
            );
        },
        MessageModel::Have { index } => {
            lemma_quiet_balanced(
                m,
                peer,
                |c: ConnectionModel| ConnectionModel { has: c.has.update(index as int, true), ..c },
                q,
            );
        },
        MessageModel::Request { index, begin, length } => {
            let whole = piece_cache::held(m.cache, index);
            lemma_quiet_balanced(
                m,
                peer,
                |c: ConnectionModel|
                    c.send_piece(index, begin, whole.subrange(begin as int, begin + length)),
                q,
            );
            lemma_quiet_balanced(
                m,
                peer,
                |c: ConnectionModel| c.send(MessageModel::Reject { index, begin, length }),
                q,
            );
        },
        MessageModel::Piece { index, begin, piece, response_time } => {
            if model::begin_error(m.metadata, index, begin, true, model::Op::Piece) is None {
                lemma_receive_balanced(m, peer, index, begin, piece, response_time, q);
            }
        },
        MessageModel::Choked(choked) => {
            lemma_choke_balanced(m, peer, choked, q);
        },
        MessageModel::Interested(interested) => {
            lemma_quiet_balanced(
                m,
                peer,
                |c: ConnectionModel|
                    (ConnectionModel { peer_interested: interested, ..c }).set_am_choking(false),
                q,
            );
        },
        MessageModel::Reject { index, begin, length } => {
            if model::length_error(m.metadata, index, begin, length, true, model::Op::Reject)
                is None {
                lemma_refused_balanced(m, peer, index, begin, q);
            }
        },
        MessageModel::HaveAll => {
            lemma_quiet_balanced(
                m,
                peer,
                |c: ConnectionModel|
                    ConnectionModel { has: Seq::new(c.has.len(), |i: int| true), ..c },
                q,
            );
        },
        MessageModel::HaveNone => {
            lemma_quiet_balanced(
                m,
                peer,
                |c: ConnectionModel|
                    ConnectionModel { has: Seq::new(c.has.len(), |i: int| false), ..c },
                q,
            );
        },
        _ => {},
    }
}

/// No message unbalances the books, be they those of all peers or those of the
/// connected ones.
pub proof fn law_step_balanced(m: TransferModel, peer: PeerId, message: MessageModel)
    requires
        m.wf(),
    ensures
        m.step(peer, message) matches Ok((next, _)) ==> {
            &&& m.balanced() ==> next.balanced()
            &&& m.connections_balanced() ==> next.connections_balanced()
        },
{
    if let Ok((next, _)) = m.step(peer, message) {
        assert forall|q: PeerId| #[trigger] keeps_books(m, next, q) by {
            lemma_step_balanced(m, peer, message, q);
        }
        lemma_all_books(m, next);
    }
}

proof fn lemma_choke_balanced(m: TransferModel, peer: PeerId, choked: bool, q: PeerId)
    requires
        m.wf(),
    ensures
        m.step(peer, MessageModel::Choked(choked)) matches Ok((next, _)) ==> keeps_books(
            m,
            next,
            q,
        ),
{
    let f = |c: ConnectionModel| c.set_peer_choking(choked);
    lemma_modified(m.connections, peer, f);
    let told = m.with_connection(peer, f);
    lemma_total_reset(told, peer, q);
    if assoc::has_key(m.connections, peer) {
        assert(assoc::key_at(m.connections, assoc::index_of(m.connections, peer), peer));
    }
}

proof fn lemma_refused_balanced(
    m: TransferModel,
    peer: PeerId,
    index: usize,
    begin: usize,
    q: PeerId,
)
    requires
        m.wf(),
        index < m.metadata.num_pieces,
        begin < m.metadata.piece_len(index as int),
    ensures
        keeps_books(m, m.refused(peer, index, begin), q),
{
    let k = begin as int / BLOCK_SIZE as int;
    let at = m.pieces[index as int];
    assert(m.piece_ok(index as int));
    piece::lemma_offset_block(at, begin as int);
    if at.asked(k) == Some(peer) {
        let f = |c: ConnectionModel| c.reject();
        lemma_modified(m.connections, peer, f);
        lemma_total_update(m.pieces, index as int, at.reject(k, peer), q);
        piece::lemma_count_update(at.blocks, k, Block::Free, q);
        piece::lemma_count_zero(at.blocks, q);
    }
}

/// A complete piece has nothing asked of anyone, nor has an emptied one.
proof fn lemma_count_settled(m: PieceModel, peer: PeerId)
    ensures
        m.complete() ==> piece::count_asked(m.blocks, peer) == 0,
        piece::count_asked(m.emptied().blocks, peer) == 0,
{
    piece::lemma_count_zero(m.blocks, peer);
    piece::lemma_count_zero(m.emptied().blocks, peer);
    if m.complete() {
        assert forall|k: int| 0 <= k < m.blocks.len() implies !piece::asked_of(
            #[trigger] m.blocks[k],
            peer,
        ) by {
            assert(m.blocks[k] is Obtained);
        }
    }
}

/// What a placed block does to the number of blocks asked of each peer: the
/// block itself is no longer asked of anyone.
pub proof fn lemma_place_count(m: PieceModel, k: int, block: Seq<u8>, release: bool, peer: PeerId)
    requires
        m.wf(),
        0 <= k < m.blocks.len(),
        !(m.blocks[k] is Obtained),
    ensures
        piece::count_asked(m.place(k, block, release).0.blocks, peer) == piece::count_asked(
            m.blocks,
            peer,
        ) - (if piece::asked_of(m.blocks[k], peer) {
            1int
        } else {
            0int
        }),
{
    piece::lemma_count_update(m.blocks, k, Block::Free, peer);
    piece::lemma_count_update(m.blocks, k, Block::Obtained, peer);
    let next = PieceModel {
        blocks: m.blocks.update(k, Block::Obtained),
        data: m.filled(k, block),
        ..m
    };
    lemma_count_settled(next, peer);
}

proof fn lemma_receive_balanced(
    m: TransferModel,
    peer: PeerId,
    index: usize,
    begin: usize,
    block: Seq<u8>,
    response_time: Option<u64>,
    q: PeerId,
)
    requires
        m.wf(),
        index < m.metadata.num_pieces,
        begin < m.metadata.piece_len(index as int),
    ensures
        keeps_books(m, m.receive(peer, index, begin, block, response_time).0, q),
{
    let k = begin as int / BLOCK_SIZE as int;
    let at = m.pieces[index as int];
    assert(m.piece_ok(index as int));
    piece::lemma_offset_block(at, begin as int);
    if !at.obtained(k) {
        let who = at.asked(k);
        let f = |c: ConnectionModel|
            c.receive_piece(block.len(), response_time, who == Some(peer));
        lemma_modified(m.connections, peer, f);
        let counted = m.with_connection(peer, f);
        let g = |c: ConnectionModel| c.sub_sent_requests(1);
        if who is Some && who != Some(peer) {
            lemma_modified(counted.connections, who->0, g);
        }
        lemma_total_update(m.pieces, index as int, at.place(k, block, true).0, q);
        lemma_place_count(at, k, block, true, q);
        piece::lemma_count_zero(at.blocks, q);
        if assoc::has_key(counted.connections, q) {
            let i = assoc::index_of(counted.connections, q);
            assert(assoc::key_at(counted.connections, i, q));
            assoc::lemma_index_unique(m.connections, i, q);
        }
    }
}

/// A finished read does not unbalance the books, be they those of all peers or
/// those of the connected ones.
pub proof fn law_finish_read_balanced(
    m: TransferModel,
    peer: PeerId,
    index: usize,
    begin: usize,
    length: usize,
    whole: Seq<u8>,
    now: u64,
)
    requires
        m.wf(),
        index < m.metadata.num_pieces,
        whole.len() == m.metadata.piece_len(index as int),
    ensures
        m.balanced() ==> m.finish_read(peer, index, begin, length, whole, now).balanced(),
        m.connections_balanced() ==> m.finish_read(
            peer,
            index,
            begin,
            length,
            whole,
            now,
        ).connections_balanced(),
{
    let f = |c: ConnectionModel|
        c.send_piece(index, begin, whole.subrange(begin as int, begin + length));
    law_finish_read_wf(m, peer, index, begin, length, whole, now);
    let after = after_read(m, peer, index, begin, length, whole);
    let next = m.finish_read(peer, index, begin, length, whole, now);
    assert forall|q: PeerId| #[trigger] keeps_books(m, next, q) by {
        lemma_quiet_balanced(m, peer, f, q);
        assert(keeps_books(m, after, q));
        lemma_dispatch_balanced(after, after.connections.len(), now, q);
    }
    lemma_all_books(m, next);
}

/// A finished write does not unbalance the books, be they those of all peers or
/// those of the connected ones.
pub proof fn law_finish_write_balanced(m: TransferModel, index: usize, now: u64)
    requires
        m.wf(),
        index < m.metadata.num_pieces,
        !m.bits()[index as int],
        m.pieces[index as int].complete(),
        m.pieces[index as int].written,
    ensures
        m.balanced() ==> m.finish_write(index, now).balanced(),
        m.connections_balanced() ==> m.finish_write(index, now).connections_balanced(),
{
    law_finish_write_wf(m, index, now);
    let after = after_write(m, index);
    let next = m.finish_write(index, now);
    lemma_same_keys(m.connections, after.connections);
    assert forall|q: PeerId| #[trigger] keeps_books(m, next, q) by {
        if assoc::has_key(m.connections, q) {
            assert(assoc::key_at(m.connections, assoc::index_of(m.connections, q), q));
            assert(assoc::index_of(after.connections, q) == assoc::index_of(m.connections, q));
        }
        assert(keeps_books(m, after, q));
        lemma_dispatch_balanced(after, after.connections.len(), now, q);
    }
    lemma_all_books(m, next);
}

/// Sending requests to one peer does not unbalance the books.
proof fn lemma_dispatch_one_balanced(m: TransferModel, i: int, now: u64, q: PeerId)
    requires
        m.wf(),
    ensures
        keeps_books(m, m.dispatch_one(i, now), q),
    decreases
            (if 0 <= i < m.connections.len() {
                m.connections[i].1.max_requests - m.connections[i].1.sent_requests
            } else {
                0
            }),
{
    if 0 <= i < m.connections.len() && m.connections[i].1.can_request() {
        let (peer, c) = m.connections[i];
        assert(c.wf(m.metadata.num_pieces as nat));
        assert(assoc::key_at(m.connections, i, peer));
        assoc::lemma_index_unique(m.connections, i, peer);
        lemma_next_piece(m, c);
        let cursor = m.next_piece(c);
        let f = |c: ConnectionModel| ConnectionModel { piece_cursor: cursor, ..c };
        assert(m.with_cursor(i, cursor) == m.with_connection(peer, f));
        lemma_quiet_balanced(m, peer, f, q);
        if let Some(p) = cursor {
            lemma_with_cursor_wf(m, i, Some(p));
            let at = m.with_cursor(i, Some(p));
            assert(at.piece_ok(p as int));
            lemma_blocks_fit(at.pieces[p as int]);
            lemma_first_free(at.pieces[p as int], 0, peer);
            if let Some(b) = at.pieces[p as int].first_free(peer) {
                let next = at.request(i, p, b, now);
                lemma_request_wf(at, i, p, b, now);
                lemma_request_balanced(at, i, p, b, now, q);
                lemma_dispatch_one_balanced(next, i, now, q);
            }
        }
    }
}

proof fn lemma_request_balanced(
    m: TransferModel,
    i: int,
    p: usize,
    b: usize,
    now: u64,
    q: PeerId,
)
    requires
        m.wf(),
        0 <= i < m.connections.len(),
        p < m.metadata.num_pieces,
        b < m.pieces[p as int].blocks.len(),
        m.pieces[p as int].blocks[b as int] is Free,
    ensures
        keeps_books(m, m.request(i, p, b, now), q),
{
    let (peer, c) = m.connections[i];
    let next = m.request(i, p, b, now);
    assert(assoc::key_at(m.connections, i, peer));
    assoc::lemma_index_unique(m.connections, i, peer);
    lemma_same_keys(m.connections, next.connections);
    let asked = m.pieces[p as int].download(b as int, peer, now);
    lemma_total_update(m.pieces, p as int, asked, q);
    piece::lemma_count_update(
        m.pieces[p as int].blocks,
        b as int,
        Block::Requested { peer, since: now },
        q,
    );
    if assoc::has_key(m.connections, q) {
        let j = assoc::index_of(m.connections, q);
        assert(assoc::key_at(m.connections, j, q));
        assert(assoc::index_of(next.connections, q) == j);
        if j == i {
            assert(q == peer);
        }
    }
}

proof fn lemma_dispatch_balanced(m: TransferModel, n: nat, now: u64, q: PeerId)
    requires
        m.wf(),
    ensures
        keeps_books(m, m.dispatch_upto(n, now), q),
    decreases n,
{
    if n > 0 {
        lemma_dispatch_balanced(m, (n - 1) as nat, now, q);
        lemma_dispatch_wf(m, (n - 1) as nat, now);
        lemma_dispatch_one_balanced(m.dispatch_upto((n - 1) as nat, now), n - 1, now, q);
    }
}

/// Sending requests out does not unbalance the books, be they those of all peers
/// or those of the connected ones.
pub proof fn law_dispatch_balanced(m: TransferModel, n: nat, now: u64)
    requires
        m.wf(),
    ensures
        m.balanced() ==> m.dispatch_upto(n, now).balanced(),
        m.connections_balanced() ==> m.dispatch_upto(n, now).connections_balanced(),
{
    let next = m.dispatch_upto(n, now);
    assert forall|q: PeerId| #[trigger] keeps_books(m, next, q) by {
        lemma_dispatch_balanced(m, n, now, q);
    }
    lemma_all_books(m, next);
}

/// A message with all that follows from it does not unbalance the books: where
/// each connection counts as many requests as there are blocks asked of its
/// peer, it does so afterwards, and where that holds of all peers, connected or
/// not, it still does.
pub proof fn law_handle_balanced(m: TransferModel, peer: PeerId, message: MessageModel, now: u64)
    requires
        m.wf(),
    ensures
        m.handle(peer, message, now) matches Ok((next, _)) ==> {
            &&& next.wf()
            &&& m.balanced() ==> next.balanced()
            &&& m.connections_balanced() ==> next.connections_balanced()
        },
{
    law_step_wf(m, peer, message);
    law_step_balanced(m, peer, message);
    if let Ok((stepped, _)) = m.step(peer, message) {
        let next = stepped.dispatch(now);
        lemma_dispatch_wf(stepped, stepped.connections.len(), now);
        assert forall|q: PeerId| #[trigger] keeps_books(m, next, q) by {
            lemma_step_balanced(m, peer, message, q);
            lemma_dispatch_balanced(stepped, stepped.connections.len(), now, q);
        }
        lemma_all_books(m, next);
    }
}

/// A severed connection leaves the books balanced, with nothing asked of its peer.
pub proof fn law_sever_balanced(m: TransferModel, peer: PeerId)
    requires
        m.wf(),
    ensures
        m.balanced() ==> m.sever(peer).balanced(),
        m.connections_balanced() ==> m.sever(peer).connections_balanced(),
        model::total_asked(m.sever(peer).pieces, peer) == 0,
{
    let next = m.sever(peer);
    lemma_removed(m.connections, peer);
    lemma_total_reset(m, peer, peer);
    assert forall|q: PeerId| m.balanced_for(q) implies #[trigger] next.balanced_for(q) by {
        lemma_total_reset(m, peer, q);
    }
    assert forall|q: PeerId| #[trigger]
        assoc::has_key(next.connections, q) implies assoc::has_key(m.connections, q) by {
        let i = assoc::index_of(next.connections, q);
        assert(assoc::key_at(next.connections, i, q));
        let j = choose|j: int|
            0 <= j < m.connections.len() && m.connections[j] == next.connections[i];
        assert(assoc::key_at(m.connections, j, q));
    }
}

/// A new connection to a peer that nothing is asked of leaves the books balanced.
pub proof fn law_add_connection_balanced(m: TransferModel, peer: PeerId, supports_fast: bool)
    requires
        m.wf(),
        model::total_asked(m.pieces, peer) == 0,
    ensures
        m.balanced() ==> m.add_connection(peer, supports_fast).balanced(),
        m.connections_balanced() ==> m.add_connection(peer, supports_fast).connections_balanced(),
{
    let next = m.add_connection(peer, supports_fast);
    lemma_put(m.connections, peer, m.greeted(peer, supports_fast));
    assert(next.balanced_for(peer));
    assert forall|q: PeerId| m.balanced_for(q) implies #[trigger] next.balanced_for(q) by {}
    assert forall|q: PeerId| #[trigger]
        assoc::has_key(next.connections, q) && q != peer implies assoc::has_key(
        m.connections,
        q,
    ) by {
        let i = assoc::index_of(next.connections, q);
        assert(assoc::key_at(next.connections, i, q));
        let j = choose|j: int|
            0 <= j < m.connections.len() && m.connections[j] == next.connections[i];
        assert(assoc::key_at(m.connections, j, q));
    }
}

proof fn lemma_expire_balanced(m: TransferModel, n: nat, now: u64, q: PeerId)
    requires
        m.wf(),
        n <= m.pieces.len(),
    ensures
        keeps_books(m, m.expire_upto(n, now), q),
    decreases n,
{
    if n > 0 {
        lemma_expire_balanced(m, (n - 1) as nat, now, q);
        lemma_expire_wf(m, (n - 1) as nat, now);
        let before = m.expire_upto((n - 1) as nat, now);
        let after = m.expire_upto(n, now);
        let at = before.pieces[n - 1];
        let late = piece::late_peers(at.blocks, now);
        lemma_timed_out(before.connections, late);
        lemma_same_keys(before.connections, after.connections);
        lemma_total_update(before.pieces, n - 1, at.expire(now), q);
        piece::lemma_count_expire(at, now, q);
        if assoc::has_key(before.connections, q) {
            let i = assoc::index_of(before.connections, q);
            assert(assoc::key_at(before.connections, i, q));
            assert(assoc::index_of(after.connections, q) == i);
            assert(after.connections[i].1 == before.connections[i].1.timeout(
                piece::occurrences(late, q),
            ));
        }
    }
}

/// Giving late requests up does not unbalance the books, be they those of all
/// peers or those of the connected ones.
pub proof fn law_expire_balanced(m: TransferModel, n: nat, now: u64)
    requires
        m.wf(),
        n <= m.pieces.len(),
    ensures
        m.balanced() ==> m.expire_upto(n, now).balanced(),
        m.connections_balanced() ==> m.expire_upto(n, now).connections_balanced(),
{
    let next = m.expire_upto(n, now);
    assert forall|q: PeerId| #[trigger] keeps_books(m, next, q) by {
        lemma_expire_balanced(m, n, now, q);
    }
    lemma_all_books(m, next);
}

/// A tick does not unbalance the books, be they those of all peers or those of
/// the connected ones.
pub proof fn law_tick_balanced(m: TransferModel, now: u64)
    requires
        m.wf(),
    ensures
        m.tick(now).wf(),
        m.balanced() ==> m.tick(now).balanced(),
        m.connections_balanced() ==> m.tick(now).connections_balanced(),
{
    law_tick_wf(m, now);
    lemma_expire_wf(m, m.pieces.len(), now);
    let expired = m.expire_upto(m.pieces.len(), now);
    let after = expired.statistics();
    let next = m.tick(now);
    lemma_statistics_wf(expired);
    lemma_same_keys(expired.connections, after.connections);
    assert forall|q: PeerId| #[trigger] keeps_books(m, next, q) by {
        lemma_expire_balanced(m, m.pieces.len(), now, q);
        if assoc::has_key(expired.connections, q) {
            let i = assoc::index_of(expired.connections, q);
            assert(assoc::key_at(expired.connections, i, q));
            assert(assoc::index_of(after.connections, q) == i);
        }
        assert(keeps_books(m, after, q));
        lemma_dispatch_balanced(after, after.connections.len(), now, q);
    }
    lemma_all_books(m, next);
}

/// What has been downloaded and what is left make up the torrent, and nothing
/// is left exactly when every piece is had.
pub proof fn law_downloaded_and_left(m: TransferModel)
    requires
        m.wf(),
    ensures
        m.downloaded() + m.left() == m.metadata.length,
        0 <= m.downloaded() <= m.metadata.length,
        m.left() == 0 <==> m.downloaded_pieces == m.metadata.num_pieces,
{
    bitfield::lemma_count_set_bound(m.bits());
    let n = m.metadata.num_pieces as int;
    let d = m.downloaded_pieces as int;
    let pl = m.metadata.piece_length as int;
    if n > 0 {
        crate::metainfo::lemma_piece_bounds(m.metadata, n - 1);
        assert((n - 1) * pl + pl == n * pl) by (nonlinear_arith);
        assert(0 <= d * pl) by (nonlinear_arith)
            requires
                d >= 0,
                pl > 0,
        ;
        if d < n {
            assert(d * pl <= (n - 1) * pl) by (nonlinear_arith)
                requires
                    d <= n - 1,
                    pl > 0,
            ;
        }
    } else {
        assert(d * pl == 0) by (nonlinear_arith)
            requires
                d == 0,
        ;
    }
}

/// Only pieces with the right digest are written: whatever a peer sends, the
/// bytes that go to disk are those of a piece of the torrent, whole.
pub proof fn law_written_pieces_match(
    m: TransferModel,
    peer: PeerId,
    message: MessageModel,
    now: u64,
)
    requires
        m.wf(),
    ensures
        m.handle(peer, message, now) matches Ok((_, PendingModel::Write { index, piece })) ==> {
            &&& index < m.metadata.num_pieces
            &&& piece.len() == m.metadata.piece_len(index as int)
            &&& digest::sha1_digest(piece) == m.metadata.pieces@[index as int].bytes@
        },
{
    if let MessageModel::Piece { index, begin, piece: block, .. } = message {
        if model::begin_error(m.metadata, index, begin, true, model::Op::Piece) is None {
            assert(m.piece_ok(index as int));
        }
    }
}

/// Handling a message loses no piece that is had, and only writing one adds to
/// them.
pub proof fn law_pieces_kept(m: TransferModel, peer: PeerId, message: MessageModel, now: u64)
    ensures
        m.handle(peer, message, now) matches Ok((next, _)) ==> next.have == m.have
            && next.metadata == m.metadata,
{
    if let Ok((next, _)) = m.step(peer, message) {
        lemma_dispatch_have(next, next.connections.len(), now);
    }
}

proof fn lemma_dispatch_have(m: TransferModel, n: nat, now: u64)
    ensures
        m.dispatch_upto(n, now).have == m.have,
        m.dispatch_upto(n, now).metadata == m.metadata,
    decreases n,
{
    if n > 0 {
        lemma_dispatch_have(m, (n - 1) as nat, now);
        lemma_dispatch_one_have(m.dispatch_upto((n - 1) as nat, now), n - 1, now);
    }
}

proof fn lemma_dispatch_one_have(m: TransferModel, i: int, now: u64)
    ensures
        m.dispatch_one(i, now).have == m.have,
        m.dispatch_one(i, now).metadata == m.metadata,
    decreases
            (if 0 <= i < m.connections.len() {
                m.connections[i].1.max_requests - m.connections[i].1.sent_requests
            } else {
                0
            }),
{
    if 0 <= i < m.connections.len() && m.connections[i].1.can_request() {
        if let Some(p) = m.next_piece(m.connections[i].1) {
            let at = m.with_cursor(i, Some(p));
            if let Some(b) = at.pieces[p as int].first_free(m.connections[i].0) {
                lemma_dispatch_one_have(at.request(i, p, b, now), i, now);
            }
        }
    }
}

/// No piece that is had is asked for again.
pub proof fn law_asks_only_for_missing(m: TransferModel, c: ConnectionModel)
    requires
        m.wf(),
        c.wf(m.metadata.num_pieces as nat),
    ensures
        m.next_piece(c) matches Some(p) ==> p < m.metadata.num_pieces && !m.bits()[p as int]
            && m.pieces[p as int].available(),
{
    lemma_shared_available(m, c.has, 0);
    lemma_open_available(m, c.has, 0);
    if let Some(p) = m.next_piece(c) {
        assert(m.piece_ok(p as int));
        if m.bits()[p as int] {
            let k = choose|k: int|
                0 <= k < m.pieces[p as int].blocks.len() && (
                #[trigger] m.pieces[p as int].blocks[k]) is Free;
            assert(m.pieces[p as int].blocks[k] is Obtained);
        }
    }
}

proof fn lemma_shared_available(m: TransferModel, has: Seq<bool>, j: int)
    requires
        m.wf(),
        0 <= j,
    ensures
        m.shared_from(has, j) matches Some(p) ==> p < m.metadata.num_pieces
            && m.pieces[p as int].available(),
    decreases m.connections.len() - j,
{
    if j < m.connections.len() {
        assert(m.connections[j].1.wf(m.metadata.num_pieces as nat));
        lemma_shared_available(m, has, j + 1);
    }
}

proof fn lemma_open_available(m: TransferModel, has: Seq<bool>, p: int)
    requires
        m.wf(),
        0 <= p,
    ensures
        m.open_from(has, p) matches Some(q) ==> q < m.metadata.num_pieces
            && m.pieces[q as int].available(),
    decreases m.pieces.len() - p,
{
    if p < m.pieces.len() {
        lemma_open_available(m, has, p + 1);
    }
}

} // verus!
