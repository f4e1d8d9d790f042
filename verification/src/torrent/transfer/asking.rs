//! What may be expected of the requests that go out: whole blocks, within the
//! torrent, of pieces that the peer has, each of one peer only.

use crate::metainfo;
use crate::metainfo::Metadata;
use crate::proto::bit_torrent::MessageModel;
use crate::torrent::piece;
use crate::torrent::piece::{Block, PieceModel};
use crate::torrent::transfer::connection::ConnectionModel;
use crate::torrent::transfer::laws;
use crate::torrent::transfer::model;
use crate::torrent::transfer::model::TransferModel;
use crate::types::PeerId;
use vstd::prelude::*;

verus! {

/// Where piece `p` ends in the torrent: where the next one starts, or where the
/// torrent ends.
pub open spec fn piece_end(metadata: Metadata, p: int) -> int {
    let next = (p + 1) * metadata.piece_length;
    if next <= metadata.length {
        next
    } else {
        metadata.length as int
    }
}

/// A run of bytes is one block of a piece: it begins at a multiple of the block
/// size, and is a whole block or ends with the piece.
pub open spec fn one_block(metadata: Metadata, index: int, begin: int, length: int) -> bool {
    let start = index * metadata.piece_length + begin;
    &&& 0 <= index < metadata.num_pieces
    &&& 0 <= begin
    &&& begin % 16_384 == 0
    &&& 0 < length <= 16_384
    &&& start + length <= piece_end(metadata, index)
    &&& length == 16_384 || start + length == piece_end(metadata, index)
}

/// Some block of the piece is neither there nor asked of anyone.
pub open spec fn some_free(p: PieceModel) -> bool {
    exists|k: int| 0 <= k < p.blocks.len() && #[trigger] p.blocks[k] == Block::Free
}

/// A piece that a peer could be asked for: the peer has it, and some block of it
/// is neither there nor asked of anyone.
pub open spec fn wanted(m: TransferModel, has: Seq<bool>, p: int) -> bool {
    0 <= p < m.pieces.len() && has[p] && some_free(m.pieces[p])
}

/// Connection `j` is at a piece that a peer with the pieces `has` could be asked
/// for.
pub open spec fn joins(m: TransferModel, has: Seq<bool>, j: int) -> bool {
    0 <= j < m.connections.len() && m.connections[j].1.piece_cursor is Some && wanted(
        m,
        has,
        m.connections[j].1.piece_cursor->0 as int,
    )
}

/// A connection stays with the piece that it is at while a block of it is free.
/// Any other piece that it goes to is one that its peer has: where there are
/// any, the one that the first connection is at, else the first of all. It
/// goes to none exactly where the peer has no piece with a free block.
pub proof fn law_piece_choice(m: TransferModel, c: ConnectionModel)
    requires
        m.wf(),
        c.wf(m.metadata.num_pieces as nat),
    ensures
        c.piece_cursor matches Some(p) && some_free(m.pieces[p as int]) ==> m.next_piece(c)
            == c.piece_cursor,
        !(c.piece_cursor matches Some(p) && some_free(m.pieces[p as int])) ==> {
            &&& m.next_piece(c) matches Some(p) ==> wanted(m, c.has, p as int)
            &&& m.next_piece(c) is None <==> forall|p: int| !#[trigger] wanted(m, c.has, p)
            &&& forall|j: int| #[trigger]
                joins(m, c.has, j) && (forall|i: int| 0 <= i < j ==> !#[trigger] joins(m, c.has, i))
                    ==> m.next_piece(c) == m.connections[j].1.piece_cursor
            &&& (forall|j: int| !#[trigger] joins(m, c.has, j)) ==> forall|p: int| #[trigger]
                wanted(m, c.has, p) ==> m.next_piece(c)->0 <= p
        },
{
    lemma_shared(m, c.has, 0);
    lemma_first(m, c.has, 0);
    assert forall|p: int| 0 <= p < m.pieces.len() implies some_free(#[trigger] m.pieces[p])
        == m.pieces[p].available() by {
        lemma_free(m.pieces[p]);
    }
    if let Some(p) = c.piece_cursor {
        lemma_free(m.pieces[p as int]);
    }
    assert forall|j: int| #[trigger]
        joins(m, c.has, j) && (forall|i: int| 0 <= i < j ==> !#[trigger] joins(m, c.has, i))
            && m.shared_from(c.has, 0) is Some implies m.shared_from(c.has, 0)
        == m.connections[j].1.piece_cursor by {
        let k = choose|k: int|
            0 <= k < m.connections.len() && #[trigger] joins(m, c.has, k) && (forall|i: int|
                0 <= i < k ==> !#[trigger] joins(m, c.has, i)) && m.shared_from(c.has, 0)
                == m.connections[k].1.piece_cursor;
        if k < j {
            assert(!joins(m, c.has, k));
        } else if j < k {
            assert(!joins(m, c.has, j));
        }
    }
}

proof fn lemma_free(p: PieceModel)
    ensures
        some_free(p) == p.available(),
{
    if p.available() {
        let k = choose|k: int| 0 <= k < p.blocks.len() && (#[trigger] p.blocks[k]) is Free;
        assert(p.blocks[k] == Block::Free);
    }
    if some_free(p) {
        let k = choose|k: int| 0 <= k < p.blocks.len() && #[trigger] p.blocks[k] == Block::Free;
        assert(p.blocks[k] is Free);
    }
}

proof fn lemma_shared(m: TransferModel, has: Seq<bool>, j: int)
    requires
        m.wf(),
        0 <= j <= m.connections.len(),
    ensures
        m.shared_from(has, j) is None <==> forall|i: int|
            j <= i < m.connections.len() ==> !#[trigger] joins(m, has, i),
        m.shared_from(has, j) is Some ==> exists|k: int|
            j <= k < m.connections.len() && #[trigger] joins(m, has, k) && (forall|i: int|
                j <= i < k ==> !#[trigger] joins(m, has, i)) && m.shared_from(has, j)
                == m.connections[k].1.piece_cursor,
    decreases m.connections.len() - j,
{
    if j < m.connections.len() {
        assert(m.connections[j].1.wf(m.metadata.num_pieces as nat));
        lemma_shared(m, has, j + 1);
        if let Some(p) = m.connections[j].1.piece_cursor {
            lemma_free(m.pieces[p as int]);
        }
        if joins(m, has, j) {
            assert(m.shared_from(has, j) == m.connections[j].1.piece_cursor);
        } else {
            assert(m.shared_from(has, j) == m.shared_from(has, j + 1));
        }
    }
}

proof fn lemma_first(m: TransferModel, has: Seq<bool>, p: int)
    requires
        m.wf(),
        0 <= p <= m.pieces.len(),
    ensures
        m.open_from(has, p) is None <==> forall|q: int|
            p <= q < m.pieces.len() ==> !#[trigger] wanted(m, has, q),
        m.open_from(has, p) matches Some(q) ==> {
            &&& p <= q
            &&& wanted(m, has, q as int)
            &&& forall|r: int| p <= r < q ==> !#[trigger] wanted(m, has, r)
        },
    decreases m.pieces.len() - p,
{
    if p < m.pieces.len() {
        lemma_first(m, has, p + 1);
        lemma_free(m.pieces[p]);
        if wanted(m, has, p) {
            assert(m.open_from(has, p) == Some(p as usize));
        } else {
            assert(m.open_from(has, p) == m.open_from(has, p + 1));
        }
    }
}

/// Block `k` of a piece can be asked of a peer: it is neither there nor asked of
/// anyone, and this peer has not refused it.
pub open spec fn open_to(p: PieceModel, k: int, peer: PeerId) -> bool {
    &&& 0 <= k < p.blocks.len()
    &&& p.blocks[k] == Block::Free
    &&& !p.refusals.contains((k as usize, peer))
}

/// The block of a piece that a peer is asked for is the first that it can be
/// asked for, and there is none exactly where it cannot be asked for any.
pub proof fn law_block_choice(m: PieceModel, peer: PeerId)
    requires
        m.blocks.len() <= usize::MAX,
    ensures
        match m.first_free(peer) {
            Some(b) => open_to(m, b as int, peer) && forall|k: int|
                0 <= k < b ==> !#[trigger] open_to(m, k, peer),
            None => forall|k: int| !#[trigger] open_to(m, k, peer),
        },
{
    lemma_block_choice(m, 0, peer);
}

proof fn lemma_block_choice(m: PieceModel, from: int, peer: PeerId)
    requires
        0 <= from <= m.blocks.len(),
        m.blocks.len() <= usize::MAX,
    ensures
        match m.first_free_from(from, peer) {
            Some(b) => from <= b && open_to(m, b as int, peer) && forall|k: int|
                from <= k < b ==> !#[trigger] open_to(m, k, peer),
            None => forall|k: int| from <= k ==> !#[trigger] open_to(m, k, peer),
        },
    decreases m.blocks.len() - from,
{
    if from < m.blocks.len() {
        lemma_block_choice(m, from + 1, peer);
        if m.free_for(from, peer) {
            assert(m.first_free_from(from, peer) == Some(from as usize));
        }
    }
}

/// A message asks the peer of connection `i` for one block, whole, that nothing
/// was asked for before and that is asked of this peer now: one that the peer
/// has not refused, of a piece that it has or that the connection was at.
pub open spec fn right_request(
    m: TransferModel,
    next: TransferModel,
    i: int,
    message: MessageModel,
    now: u64,
) -> bool {
    message matches MessageModel::Request { index, begin, length } && {
        let (peer, c) = m.connections[i];
        let k = begin as int / 16_384;
        &&& one_block(m.metadata, index as int, begin as int, length as int)
        &&& open_to(m.pieces[index as int], k, peer)
        &&& next.pieces[index as int].blocks[k] == (Block::Requested { peer, since: now })
        &&& c.has[index as int] || c.piece_cursor == Some(index)
    }
}

/// What becomes of block `k` of piece `p` when requests go out: nothing, or it is
/// free before and asked of a connected peer after.
pub open spec fn block_follows(
    m: TransferModel,
    next: TransferModel,
    p: int,
    k: int,
    now: u64,
) -> bool {
    next.pieces[p].blocks[k] == m.pieces[p].blocks[k] || {
        &&& m.pieces[p].blocks[k] == Block::Free
        &&& next.pieces[p].blocks[k] matches Block::Requested { peer, since } && since == now
            && exists|i: int| 0 <= i < m.connections.len() && (#[trigger] m.connections[i]).0 == peer
    }
}

/// What becomes of connection `i` when requests go out: right requests are added
/// to what it sends, each is counted, and no more are out than may be. A
/// peer that chokes is sent none.
pub open spec fn connection_follows(m: TransferModel, next: TransferModel, i: int, now: u64) -> bool {
    let c = m.connections[i].1;
    let d = next.connections[i].1;
    &&& next.connections[i].0 == m.connections[i].0
    &&& d == (ConnectionModel {
        piece_cursor: d.piece_cursor,
        outbox: d.outbox,
        sent_requests: d.sent_requests,
        ..c
    })
    &&& d.outbox.len() - c.outbox.len() == d.sent_requests - c.sent_requests >= 0
    &&& d.outbox.take(c.outbox.len() as int) == c.outbox
    &&& d.sent_requests > c.sent_requests ==> !c.peer_choking && d.sent_requests <= c.max_requests
    &&& forall|x: int|
        c.outbox.len() <= x < d.outbox.len() ==> right_request(
            m,
            next,
            i,
            #[trigger] d.outbox[x],
            now,
        )
    &&& d.piece_cursor matches Some(p) ==> c.has[p as int] || c.piece_cursor == Some(p)
}

/// What requests that go out do, and all that they do.
pub open spec fn only_asks(m: TransferModel, next: TransferModel, now: u64) -> bool {
    &&& next == (TransferModel { pieces: next.pieces, connections: next.connections, ..m })
    &&& next.pieces.len() == m.pieces.len()
    &&& next.connections.len() == m.connections.len()
    &&& forall|p: int|
        0 <= p < m.pieces.len() ==> (#[trigger] next.pieces[p]) == (PieceModel {
            blocks: next.pieces[p].blocks,
            ..m.pieces[p]
        }) && next.pieces[p].blocks.len() == m.pieces[p].blocks.len()
    &&& forall|p: int, k: int|
        0 <= p < m.pieces.len() && 0 <= k < m.pieces[p].blocks.len() ==> #[trigger] block_follows(
            m,
            next,
            p,
            k,
            now,
        )
    &&& forall|i: int|
        0 <= i < m.connections.len() ==> #[trigger] connection_follows(m, next, i, now)
}

proof fn lemma_asks_nothing(m: TransferModel, now: u64)
    ensures
        only_asks(m, m, now),
{
    assert forall|i: int| 0 <= i < m.connections.len() implies #[trigger] connection_follows(
        m,
        m,
        i,
        now,
    ) by {
        let c = m.connections[i].1;
        assert(c.outbox.take(c.outbox.len() as int) =~= c.outbox);
    }
}

proof fn lemma_asks_twice(a: TransferModel, b: TransferModel, c: TransferModel, now: u64)
    requires
        a.wf(),
        b.wf(),
        only_asks(a, b, now),
        only_asks(b, c, now),
    ensures
        only_asks(a, c, now),
{
    assert forall|i: int| 0 <= i < a.connections.len() implies (#[trigger] a.connections[i]).0
        == b.connections[i].0 && b.connections[i].0 == c.connections[i].0 by {
        assert(connection_follows(a, b, i, now));
        assert(connection_follows(b, c, i, now));
    }
    assert forall|p: int, k: int|
        0 <= p < a.pieces.len() && 0 <= k < a.pieces[p].blocks.len() implies #[trigger] block_follows(
        a,
        c,
        p,
        k,
        now,
    ) by {
        assert(b.pieces[p].blocks.len() == a.pieces[p].blocks.len());
        assert(block_follows(a, b, p, k, now));
        assert(block_follows(b, c, p, k, now));
        if b.pieces[p].blocks[k] != c.pieces[p].blocks[k] {
            if let Block::Requested { peer, .. } = c.pieces[p].blocks[k] {
                let i = choose|i: int|
                    0 <= i < b.connections.len() && (#[trigger] b.connections[i]).0 == peer;
                assert(a.connections[i].0 == peer);
            }
        }
    }
    assert forall|i: int| 0 <= i < a.connections.len() implies #[trigger] connection_follows(
        a,
        c,
        i,
        now,
    ) by {
        assert(connection_follows(a, b, i, now));
        assert(connection_follows(b, c, i, now));
        let x = a.connections[i].1;
        let y = b.connections[i].1;
        let z = c.connections[i].1;
        assert(z.outbox.take(x.outbox.len() as int) =~= y.outbox.take(x.outbox.len() as int)) by {
            assert(z.outbox.take(y.outbox.len() as int).take(x.outbox.len() as int)
                =~= z.outbox.take(x.outbox.len() as int));
        }
        assert forall|n: int| x.outbox.len() <= n < z.outbox.len() implies right_request(
            a,
            c,
            i,
            #[trigger] z.outbox[n],
            now,
        ) by {
            if n < y.outbox.len() {
                assert(z.outbox.take(y.outbox.len() as int)[n] == y.outbox[n]);
                assert(right_request(a, b, i, y.outbox[n], now));
                if let MessageModel::Request { index, begin, .. } = y.outbox[n] {
                    let k = begin as int / 16_384;
                    lemma_in_pieces(a, index as int);
                    assert(block_follows(b, c, index as int, k, now));
                }
            } else {
                assert(right_request(b, c, i, z.outbox[n], now));
                if let MessageModel::Request { index, begin, .. } = z.outbox[n] {
                    let k = begin as int / 16_384;
                    lemma_in_pieces(a, index as int);
                    assert(b.pieces[index as int].refusals == a.pieces[index as int].refusals);
                    assert(block_follows(a, b, index as int, k, now));
                }
            }
        }
    }
}

proof fn lemma_in_pieces(m: TransferModel, p: int)
    requires
        m.wf(),
        0 <= p < m.metadata.num_pieces,
    ensures
        m.piece_ok(p),
{
}

proof fn lemma_cursor_asks(m: TransferModel, i: int, cursor: Option<usize>, now: u64)
    requires
        m.wf(),
        0 <= i < m.connections.len(),
        cursor matches Some(p) ==> m.connections[i].1.has[p as int]
            || m.connections[i].1.piece_cursor == Some(p),
    ensures
        only_asks(m, m.with_cursor(i, cursor), now),
{
    lemma_asks_nothing(m, now);
    let next = m.with_cursor(i, cursor);
    assert forall|j: int| 0 <= j < m.connections.len() implies #[trigger] connection_follows(
        m,
        next,
        j,
        now,
    ) by {
        let c = m.connections[j].1;
        assert(c.outbox.take(c.outbox.len() as int) =~= c.outbox);
    }
}

/// A block of a piece, taken by its number, is one block of the torrent.
proof fn lemma_one_block(m: TransferModel, p: int, b: int)
    requires
        m.wf(),
        0 <= p < m.metadata.num_pieces,
        0 <= b < m.pieces[p].blocks.len(),
    ensures
        ({
            let left = m.metadata.piece_len(p) - 16_384 * b;
            let length = if left < 16_384 {
                left
            } else {
                16_384
            };
            one_block(m.metadata, p, 16_384 * b, length)
        }),
        16_384 * b <= usize::MAX,
        (16_384 * b) / 16_384 == b,
{
    assert(m.piece_ok(p));
    piece::lemma_block_bounds(m.pieces[p], b);
    metainfo::lemma_piece_bounds(m.metadata, p);
    let pl = m.metadata.piece_length as int;
    assert((p + 1) * pl == p * pl + pl) by (nonlinear_arith);
    assert(b * 16_384 == 16_384 * b);
}

proof fn lemma_request_asks(m: TransferModel, i: int, p: usize, b: usize, now: u64)
    requires
        m.wf(),
        0 <= i < m.connections.len(),
        p < m.metadata.num_pieces,
        m.connections[i].1.can_request(),
        m.connections[i].1.piece_cursor == Some(p),
        open_to(m.pieces[p as int], b as int, m.connections[i].0),
    ensures
        only_asks(m, m.request(i, p, b, now), now),
{
    let next = m.request(i, p, b, now);
    let (peer, c) = m.connections[i];
    lemma_asks_nothing(m, now);
    lemma_one_block(m, p as int, b as int);
    assert forall|q: int, k: int|
        0 <= q < m.pieces.len() && 0 <= k < m.pieces[q].blocks.len() implies #[trigger] block_follows(
        m,
        next,
        q,
        k,
        now,
    ) by {
        assert(m.connections[i].0 == peer);
    }
    assert forall|j: int| 0 <= j < m.connections.len() implies #[trigger] connection_follows(
        m,
        next,
        j,
        now,
    ) by {
        let x = m.connections[j].1;
        let y = next.connections[j].1;
        assert(y.outbox.take(x.outbox.len() as int) =~= x.outbox);
    }
}

proof fn lemma_dispatch_one_asks(m: TransferModel, i: int, now: u64)
    requires
        m.wf(),
    ensures
        only_asks(m, m.dispatch_one(i, now), now),
        0 <= i < m.connections.len() ==> nothing_more(m.dispatch_one(i, now), i),
    decreases
            (if 0 <= i < m.connections.len() {
                m.connections[i].1.max_requests - m.connections[i].1.sent_requests
            } else {
                0
            }),
{
    lemma_asks_nothing(m, now);
    if 0 <= i < m.connections.len() && m.connections[i].1.can_request() {
        let (peer, c) = m.connections[i];
        assert(c.wf(m.metadata.num_pieces as nat));
        laws::lemma_next_piece(m, c);
        law_piece_choice(m, c);
        let cursor = m.next_piece(c);
        let at = m.with_cursor(i, cursor);
        laws::lemma_with_cursor_wf(m, i, cursor);
        lemma_cursor_asks(m, i, cursor, now);
        match cursor {
            None => {
                assert(nothing_more(at, i)) by {
                    assert forall|p: int| !#[trigger] wanted(at, c.has, p) by {
                        assert(!wanted(m, c.has, p));
                    }
                }
            },
            Some(p) => {
                assert(at.piece_ok(p as int));
                laws::lemma_blocks_fit(at.pieces[p as int]);
                law_block_choice(at.pieces[p as int], peer);
                if let Some(b) = at.pieces[p as int].first_free(peer) {
                    let next = at.request(i, p, b, now);
                    lemma_request_asks(at, i, p, b, now);
                    laws::lemma_request_wf(at, i, p, b, now);
                    lemma_dispatch_one_asks(next, i, now);
                    laws::lemma_dispatch_one_wf(next, i, now);
                    lemma_asks_twice(at, next, m.dispatch_one(i, now), now);
                    lemma_asks_twice(m, at, m.dispatch_one(i, now), now);
                }
            },
        }
    }
}

/// There is nothing more to ask of connection `i`: it chokes, or as many requests
/// are out as may be, or it is at a piece of which its peer can be asked for no
/// block, or at none and its peer has no piece with a free block.
pub open spec fn nothing_more(m: TransferModel, i: int) -> bool {
    let (peer, c) = m.connections[i];
    ||| c.peer_choking
    ||| c.sent_requests >= c.max_requests
    ||| match c.piece_cursor {
        None => forall|p: int| !#[trigger] wanted(m, c.has, p),
        Some(p) => forall|k: int| !#[trigger] open_to(m.pieces[p as int], k, peer),
    }
}

/// Where there was nothing more to ask of a connection, there still is not once
/// other connections were asked.
proof fn lemma_nothing_more(m: TransferModel, next: TransferModel, i: int, now: u64)
    requires
        m.wf(),
        0 <= i < m.connections.len(),
        nothing_more(m, i),
        only_asks(m, next, now),
        next.connections[i] == m.connections[i],
    ensures
        nothing_more(next, i),
{
    let (peer, c) = m.connections[i];
    assert(c.wf(m.metadata.num_pieces as nat));
    match c.piece_cursor {
        None => {
            if forall|p: int| !#[trigger] wanted(m, c.has, p) {
                assert forall|p: int| !#[trigger] wanted(next, c.has, p) by {
                    assert(!wanted(m, c.has, p));
                    if wanted(next, c.has, p) {
                        let k = choose|k: int|
                            0 <= k < next.pieces[p].blocks.len() && #[trigger] next.pieces[p].blocks[k]
                                == Block::Free;
                        assert(block_follows(m, next, p, k, now));
                        assert(m.pieces[p].blocks[k] == Block::Free);
                    }
                }
            }
        },
        Some(p) => {
            assert(p < m.pieces.len());
            if forall|k: int| !#[trigger] open_to(m.pieces[p as int], k, peer) {
                assert forall|k: int| !#[trigger] open_to(next.pieces[p as int], k, peer) by {
                    assert(!open_to(m.pieces[p as int], k, peer));
                    if open_to(next.pieces[p as int], k, peer) {
                        assert(next.pieces[p as int].refusals == m.pieces[p as int].refusals);
                        assert(block_follows(m, next, p as int, k, now));
                    }
                }
            }
        },
    }
}

/// Requests that go out are right: each asks for one block of a piece, whole and
/// within the torrent, that is free and becomes asked of that peer, and of
/// nobody else; the peer has the piece, or was at it already, and has not
/// refused the block; it does not choke, and no more are out than may be. Nothing
/// else changes. And none is held back: where one more may be out, there is
/// nothing to ask for.
pub proof fn law_requests_right(m: TransferModel, now: u64)
    requires
        m.wf(),
    ensures
        only_asks(m, m.dispatch(now), now),
        forall|i: int| 0 <= i < m.connections.len() ==> #[trigger] nothing_more(m.dispatch(now), i),
{
    lemma_dispatch_asks(m, m.connections.len(), now);
}

proof fn lemma_dispatch_asks(m: TransferModel, n: nat, now: u64)
    requires
        m.wf(),
        n <= m.connections.len(),
    ensures
        only_asks(m, m.dispatch_upto(n, now), now),
        forall|i: int| 0 <= i < n ==> #[trigger] nothing_more(m.dispatch_upto(n, now), i),
    decreases n,
{
    lemma_asks_nothing(m, now);
    if n > 0 {
        let before = m.dispatch_upto((n - 1) as nat, now);
        let next = m.dispatch_upto(n, now);
        lemma_dispatch_asks(m, (n - 1) as nat, now);
        laws::lemma_dispatch_wf(m, (n - 1) as nat, now);
        laws::lemma_dispatch_wf(m, n, now);
        lemma_dispatch_one_asks(before, n - 1, now);
        lemma_asks_twice(m, before, next, now);
        assert forall|i: int| 0 <= i < n implies #[trigger] nothing_more(next, i) by {
            if i < n - 1 {
                lemma_one_connection(before, n - 1, i, now);
                assert(nothing_more(before, i));
                lemma_nothing_more(before, next, i, now);
            }
        }
    }
}

/// Requests to one peer leave the other connections as they are.
proof fn lemma_one_connection(m: TransferModel, i: int, j: int, now: u64)
    requires
        m.wf(),
        i != j,
        0 <= j < m.connections.len(),
    ensures
        m.dispatch_one(i, now).connections[j] == m.connections[j],
    decreases
            (if 0 <= i < m.connections.len() {
                m.connections[i].1.max_requests - m.connections[i].1.sent_requests
            } else {
                0
            }),
{
    if 0 <= i < m.connections.len() && m.connections[i].1.can_request() {
        let (peer, c) = m.connections[i];
        assert(c.wf(m.metadata.num_pieces as nat));
        laws::lemma_next_piece(m, c);
        if let Some(p) = m.next_piece(c) {
            let at = m.with_cursor(i, Some(p));
            laws::lemma_with_cursor_wf(m, i, Some(p));
            assert(at.piece_ok(p as int));
            laws::lemma_blocks_fit(at.pieces[p as int]);
            laws::lemma_first_free(at.pieces[p as int], 0, peer);
            if let Some(b) = at.pieces[p as int].first_free(peer) {
                laws::lemma_request_wf(at, i, p, b, now);
                lemma_one_connection(at.request(i, p, b, now), i, j, now);
            }
        }
    }
}

/// A peer with the same metadata refuses none of the requests that it is sent,
/// nor a block that answers one.
pub proof fn law_requests_accepted(metadata: Metadata, index: usize, begin: usize, length: usize)
    requires
        metadata.wf(),
        one_block(metadata, index as int, begin as int, length as int),
    ensures
        model::length_error(metadata, index, begin, length, false, model::Op::Request) is None,
        model::begin_error(metadata, index, begin, true, model::Op::Piece) is None,
{
    metainfo::lemma_piece_bounds(metadata, index as int);
    let pl = metadata.piece_length as int;
    assert((index + 1) * pl == index * pl + pl) by (nonlinear_arith);
}

/// Whatever happens, requests go out again as soon as they can: after a message
/// that the disk has no part in, after a read, after a write and after every
/// second there is nothing left to ask of any peer.
pub proof fn law_always_asked(
    m: TransferModel,
    peer: PeerId,
    message: MessageModel,
    index: usize,
    begin: usize,
    length: usize,
    whole: Seq<u8>,
    now: u64,
    i: int,
)
    requires
        m.wf(),
        index < m.metadata.num_pieces,
        whole.len() == m.metadata.piece_len(index as int),
        0 <= i < m.connections.len(),
    ensures
        m.handle(peer, message, now) matches Ok((next, pending)) ==> next.connections.len()
            == m.connections.len() && (pending is Nothing ==> nothing_more(next, i)),
        nothing_more(m.finish_read(peer, index, begin, length, whole, now), i),
        !m.bits()[index as int] && m.pieces[index as int].complete()
            && m.pieces[index as int].written ==> nothing_more(m.finish_write(index, now), i),
        nothing_more(m.tick(now), i),
{
    laws::law_step_wf(m, peer, message);
    if let Ok((stepped, pending)) = m.step(peer, message) {
        lemma_step_connections(m, peer, message);
        if pending is Nothing {
            law_requests_right(stepped, now);
            assert(nothing_more(stepped.dispatch(now), i));
        }
    }
    laws::law_finish_read_wf(m, peer, index, begin, length, whole, now);
    let read = laws::after_read(m, peer, index, begin, length, whole);
    laws::lemma_modified(
        m.connections,
        peer,
        |c: ConnectionModel|
            c.send_piece(index, begin, whole.subrange(begin as int, begin + length)),
    );
    law_requests_right(read, now);
    assert(nothing_more(read.dispatch(now), i));
    if !m.bits()[index as int] && m.pieces[index as int].complete()
        && m.pieces[index as int].written {
        laws::law_finish_write_wf(m, index, now);
        let after = laws::after_write(m, index);
        law_requests_right(after, now);
        assert(nothing_more(after.dispatch(now), i));
    }
    laws::lemma_expire_wf(m, m.pieces.len(), now);
    let expired = m.expire_upto(m.pieces.len(), now);
    laws::lemma_statistics_wf(expired);
    law_requests_right(expired.statistics(), now);
    assert(nothing_more(expired.statistics().dispatch(now), i));
}

proof fn lemma_step_connections(m: TransferModel, peer: PeerId, message: MessageModel)
    requires
        m.wf(),
    ensures
        m.step(peer, message) matches Ok((next, _)) ==> next.connections.len()
            == m.connections.len(),
{
}

} // verus!
