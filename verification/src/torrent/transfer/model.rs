//! The transfer as a mathematical object: every operation as a function from
//! state to state, and what all of them keep.

use crate::assoc;
use crate::bitfield;
use crate::metainfo::Metadata;
use crate::proto::bit_torrent::MessageModel;
use crate::proto::tracker;
use crate::torrent::control::{ConnectionProgressView, PieceProgressView};
use crate::torrent::piece;
use crate::torrent::piece::PieceModel;
use crate::torrent::transfer::connection;
use crate::torrent::transfer::connection::ConnectionModel;
use crate::torrent::transfer::piece_cache;
use crate::types::PeerId;
use vstd::prelude::*;

verus! {

/// The size of a block, in bytes.
pub const BLOCK_SIZE: usize = 16_384;

/// How many recently read pieces are kept.
pub const PIECE_CACHE_CAPACITY: usize = 8;

/// The message that an error is about.
#[derive(Clone, Copy, Debug, PartialEq, Eq, Structural)]
pub enum Op {
    Have,
    Request,
    Cancel,
    Piece,
    Reject,
}

/// Why a message is refused.
#[derive(Clone, Copy, Debug, PartialEq, Eq, Structural)]
pub enum TransferError {
    /// There is no such piece.
    PieceIndex { op: Op, index: usize },
    /// The offset is not at a block boundary.
    Boundary { op: Op, begin: usize },
    /// The offset is past the piece.
    Begin { op: Op, index: usize, piece_length: usize, begin: usize },
    /// The length is not that of a block.
    BlockLength { length: usize },
    /// The bytes reach past the piece.
    Length { op: Op, index: usize, piece_length: usize, begin: usize, length: usize },
    /// The bitfield has the wrong size in bytes.
    BitfieldSize { expected: usize, got: usize },
}

/// Work that has to be done on disk before the transfer can go on.
#[verifier::ext_equal]
pub enum PendingModel {
    Nothing,
    Read { peer: PeerId, index: usize, begin: usize, length: usize },
    Write { index: usize, piece: Seq<u8> },
}

/// A transfer's contents.
#[verifier::ext_equal]
pub struct TransferModel {
    pub metadata: Metadata,
    pub pieces: Seq<PieceModel>,
    pub have: Seq<u8>,
    pub connections: Seq<(PeerId, ConnectionModel)>,
    pub cache: Seq<(usize, Seq<u8>)>,
    pub downloaded_pieces: nat,
    pub uploaded: nat,
    pub announced: tracker::Progress,
}

/// How many blocks of all pieces are asked of `peer`.
pub open spec fn total_asked(pieces: Seq<PieceModel>, peer: PeerId) -> nat
    decreases pieces.len(),
{
    if pieces.len() == 0 {
        0
    } else {
        total_asked(pieces.drop_last(), peer) + piece::count_asked(pieces.last().blocks, peer)
    }
}

/// How many requests to `peer` its connection counts as being out.
pub open spec fn outstanding(connections: Seq<(PeerId, ConnectionModel)>, peer: PeerId) -> nat {
    if assoc::has_key(connections, peer) {
        connections[assoc::index_of(connections, peer)].1.sent_requests
    } else {
        0
    }
}

/// What has been downloaded this second over all connections.
pub open spec fn sum_downloaded(connections: Seq<(PeerId, ConnectionModel)>) -> nat
    decreases connections.len(),
{
    if connections.len() == 0 {
        0
    } else {
        sum_downloaded(connections.drop_last()) + connections.last().1.downloaded
    }
}

/// What has been uploaded this second over all connections.
pub open spec fn sum_uploaded(connections: Seq<(PeerId, ConnectionModel)>) -> nat
    decreases connections.len(),
{
    if connections.len() == 0 {
        0
    } else {
        sum_uploaded(connections.drop_last()) + connections.last().1.uploaded
    }
}

/// The connections after the entry for `peer`, if any, became `f` of itself.
pub open spec fn modified(
    connections: Seq<(PeerId, ConnectionModel)>,
    peer: PeerId,
    f: spec_fn(ConnectionModel) -> ConnectionModel,
) -> Seq<(PeerId, ConnectionModel)> {
    if assoc::has_key(connections, peer) {
        let i = assoc::index_of(connections, peer);
        connections.update(i, (peer, f(connections[i].1)))
    } else {
        connections
    }
}

/// The connections after each late peer's timeout was counted.
pub open spec fn timed_out(connections: Seq<(PeerId, ConnectionModel)>, late: Seq<PeerId>) -> Seq<
    (PeerId, ConnectionModel),
>
    decreases late.len(),
{
    if late.len() == 0 {
        connections
    } else {
        modified(
            timed_out(connections, late.drop_last()),
            late.last(),
            |c: ConnectionModel| c.timeout(1),
        )
    }
}

/// The pieces that work is being done on, in order.
pub open spec fn active_pieces(pieces: Seq<PieceModel>) -> Seq<PieceProgressView>
    decreases pieces.len(),
{
    if pieces.len() == 0 {
        Seq::empty()
    } else {
        let before = active_pieces(pieces.drop_last());
        if pieces.last().active() {
            before.push(
                PieceProgressView {
                    index: (pieces.len() - 1) as nat,
                    num_blocks: pieces.last().blocks.len(),
                    num_obtained_blocks: piece::count_obtained(pieces.last().blocks),
                    bits: pieces.last().bits(),
                    percentage: Seq::empty(),
                },
            )
        } else {
            before
        }
    }
}

/// What a connection shows of its second.
pub open spec fn connection_view(c: ConnectionModel) -> ConnectionProgressView {
    ConnectionProgressView {
        down_speed: c.downloaded,
        up_speed: c.uploaded,
        has: c.has,
        am_choking: c.am_choking,
        am_interested: c.am_interested,
        peer_choking: c.peer_choking,
        peer_interested: c.peer_interested,
        pipeline: c.max_requests,
        piece_cursor: c.piece_cursor,
        timeout_rate: c.timeouts,
        reject_rate: c.rejects,
    }
}

/// What is wrong with an offset into a piece, if anything.
pub open spec fn begin_error(
    metadata: Metadata,
    index: usize,
    begin: usize,
    boundary: bool,
    op: Op,
) -> Option<TransferError> {
    if index >= metadata.num_pieces {
        Some(TransferError::PieceIndex { op, index })
    } else if boundary && begin % BLOCK_SIZE != 0 {
        Some(TransferError::Boundary { op, begin })
    } else if begin >= metadata.piece_len(index as int) {
        Some(
            TransferError::Begin {
                op,
                index,
                piece_length: metadata.piece_len(index as int) as usize,
                begin,
            },
        )
    } else {
        None
    }
}

/// What is wrong with a run of bytes of a piece, if anything.
pub open spec fn length_error(
    metadata: Metadata,
    index: usize,
    begin: usize,
    length: usize,
    boundary: bool,
    op: Op,
) -> Option<TransferError> {
    match begin_error(metadata, index, begin, boundary, op) {
        Some(e) => Some(e),
        None => if boundary && length != BLOCK_SIZE {
            Some(TransferError::BlockLength { length })
        } else if begin + length > metadata.piece_len(index as int) {
            Some(
                TransferError::Length {
                    op,
                    index,
                    piece_length: metadata.piece_len(index as int) as usize,
                    begin,
                    length,
                },
            )
        } else {
            None
        },
    }
}

/// How much a message can add to a connection's counters.
pub open spec fn weight(message: MessageModel) -> nat {
    match message {
        MessageModel::Piece { piece, .. } => piece.len() + 1,
        MessageModel::Request { length, .. } => (length + 1) as nat,
        _ => 1,
    }
}

impl TransferModel {
    /// Every part agrees with the metadata, and the pieces that are had are
    /// complete and counted.
    pub open spec fn wf(self) -> bool {
        let n = self.metadata.num_pieces as nat;
        &&& self.metadata.wf()
        &&& self.pieces.len() == n
        &&& forall|p: int| 0 <= p < n ==> self.piece_ok(p)
        &&& self.have.len() == bitfield::bytes_for(n as int)
        &&& assoc::distinct_keys(self.connections)
        &&& forall|i: int|
            0 <= i < self.connections.len() ==> (#[trigger] self.connections[i]).1.wf(n)
                && self.connections[i].1.id == self.connections[i].0
        &&& piece_cache::distinct(self.cache)
        &&& self.cache.len() <= PIECE_CACHE_CAPACITY
        &&& forall|i: int| 0 <= i < self.cache.len() ==> self.cached_ok(i)
        &&& self.downloaded_pieces == bitfield::count_set(self.bits())
    }

    /// Piece `p` has the right size and digest, and is complete and written if it
    /// is had.
    pub open spec fn piece_ok(self, p: int) -> bool {
        &&& self.pieces[p].wf()
        &&& self.pieces[p].block_size == BLOCK_SIZE
        &&& self.pieces[p].length == self.metadata.piece_len(p)
        &&& self.pieces[p].hash == self.metadata.pieces@[p]
        &&& self.bits()[p] ==> self.pieces[p].complete() && self.pieces[p].written
    }

    /// Entry `i` of the cache is a piece of the right size.
    pub open spec fn cached_ok(self, i: int) -> bool {
        &&& self.cache[i].0 < self.metadata.num_pieces
        &&& self.cache[i].1.len() == self.metadata.piece_len(self.cache[i].0 as int)
    }

    /// Which pieces are had.
    pub open spec fn bits(self) -> Seq<bool> {
        bitfield::bits_of(self.have, self.metadata.num_pieces as int)
    }

    /// Every connection's counters can take another `amount`.
    pub open spec fn room(self, amount: nat) -> bool {
        forall|i: int|
            0 <= i < self.connections.len() ==> (#[trigger] self.connections[i]).1.room(amount)
    }

    /// The counters can take a tick: each connection's timeouts with all of its
    /// requests, and the sums over all connections.
    pub open spec fn room_for_tick(self) -> bool {
        &&& forall|i: int|
            0 <= i < self.connections.len() ==> (#[trigger] self.connections[i]).1.timeouts
                + total_asked(self.pieces, self.connections[i].0) <= usize::MAX
        &&& sum_downloaded(self.connections) <= usize::MAX
        &&& self.uploaded + sum_uploaded(self.connections) <= usize::MAX
    }

    /// What has been downloaded, in bytes.
    pub open spec fn downloaded(self) -> int {
        let whole = self.downloaded_pieces * self.metadata.piece_length;
        if whole <= self.metadata.length {
            whole
        } else {
            self.metadata.length as int
        }
    }

    /// What is left to download, in bytes.
    pub open spec fn left(self) -> int {
        self.metadata.length - self.downloaded()
    }

    /// The books of a peer balance: the blocks that are asked of it are as many
    /// as the requests that its connection counts as being out.
    pub open spec fn balanced_for(self, peer: PeerId) -> bool {
        total_asked(self.pieces, peer) == outstanding(self.connections, peer)
    }

    /// The books balance: those of every peer, connected or not.
    pub open spec fn balanced(self) -> bool {
        forall|peer: PeerId| #[trigger] self.balanced_for(peer)
    }

    /// The books of the connected peers balance.
    pub open spec fn connections_balanced(self) -> bool {
        forall|peer: PeerId| #[trigger]
            assoc::has_key(self.connections, peer) ==> self.balanced_for(peer)
    }

    pub open spec fn with_connection(
        self,
        peer: PeerId,
        f: spec_fn(ConnectionModel) -> ConnectionModel,
    ) -> TransferModel {
        TransferModel { connections: modified(self.connections, peer, f), ..self }
    }

    pub open spec fn with_piece(self, p: int, piece: PieceModel) -> TransferModel {
        TransferModel { pieces: self.pieces.update(p, piece), ..self }
    }

    /// All requests to `peer` given up.
    pub open spec fn reset(self, peer: PeerId) -> TransferModel {
        TransferModel {
            pieces: Seq::new(self.pieces.len(), |p: int| self.pieces[p].reset(peer)),
            ..self
        }
    }

    /// The connection to `peer` gone.
    pub open spec fn sever(self, peer: PeerId) -> TransferModel {
        TransferModel {
            connections: assoc::removed(self.connections, peer),
            ..self.reset(peer)
        }
    }

    /// What a new connection is told first: nothing had, everything had, or
    /// what is had; and that there is interest.
    pub open spec fn greeted(self, peer: PeerId, supports_fast: bool) -> ConnectionModel {
        let c = connection::fresh(peer, self.metadata.num_pieces as nat, supports_fast);
        let told = if self.downloaded_pieces == 0 && supports_fast {
            c.send(MessageModel::HaveNone)
        } else if self.downloaded_pieces == self.metadata.num_pieces && supports_fast {
            c.send(MessageModel::HaveAll)
        } else if self.downloaded_pieces != 0 {
            c.send(MessageModel::Bitfield(self.have))
        } else {
            c
        };
        told.set_am_interested(true)
    }

    pub open spec fn add_connection(self, peer: PeerId, supports_fast: bool) -> TransferModel {
        TransferModel {
            connections: assoc::inserted(
                self.connections,
                peer,
                self.greeted(peer, supports_fast),
            ),
            ..self
        }
    }

    /// The first connection from `j` on whose piece can be worked on by a peer
    /// that has the pieces `has`.
    pub open spec fn shared_from(self, has: Seq<bool>, j: int) -> Option<usize>
        decreases self.connections.len() - j,
    {
        if j < 0 || j >= self.connections.len() {
            None
        } else {
            match self.connections[j].1.piece_cursor {
                Some(p) if self.pieces[p as int].available() && has[p as int] => Some(p),
                _ => self.shared_from(has, j + 1),
            }
        }
    }

    /// The first piece from `p` on that can be worked on by a peer that has the
    /// pieces `has`.
    pub open spec fn open_from(self, has: Seq<bool>, p: int) -> Option<usize>
        decreases self.pieces.len() - p,
    {
        if p < 0 || p >= self.pieces.len() {
            None
        } else if self.pieces[p].available() && has[p] {
            Some(p as usize)
        } else {
            self.open_from(has, p + 1)
        }
    }

    /// The piece that a connection works on next: the one that it is at, else
    /// one that another connection is at, else the first that it can.
    pub open spec fn next_piece(self, c: ConnectionModel) -> Option<usize> {
        match c.piece_cursor {
            Some(p) if self.pieces[p as int].available() => Some(p),
            _ => match self.shared_from(c.has, 0) {
                Some(p) => Some(p),
                None => self.open_from(c.has, 0),
            },
        }
    }

    /// Connection `i` at another piece, or at none.
    pub open spec fn with_cursor(self, i: int, cursor: Option<usize>) -> TransferModel {
        let (peer, c) = self.connections[i];
        TransferModel {
            connections: self.connections.update(
                i,
                (peer, ConnectionModel { piece_cursor: cursor, ..c }),
            ),
            ..self
        }
    }

    /// Block `b` of piece `p` asked of the peer of connection `i`.
    pub open spec fn request(self, i: int, p: usize, b: usize, now: u64) -> TransferModel {
        let (peer, c) = self.connections[i];
        let begin = BLOCK_SIZE * b;
        let left = self.metadata.piece_len(p as int) - begin;
        let length = if left < BLOCK_SIZE {
            left
        } else {
            BLOCK_SIZE as int
        };
        TransferModel {
            connections: self.connections.update(
                i,
                (peer, c.request(p, begin as usize, length as usize)),
            ),
            pieces: self.pieces.update(
                p as int,
                self.pieces[p as int].download(b as int, peer, now),
            ),
            ..self
        }
    }

    /// Requests sent to the peer of connection `i` until no more may be out or
    /// there is nothing to ask of it.
    pub open spec fn dispatch_one(self, i: int, now: u64) -> TransferModel
        decreases
            (if 0 <= i < self.connections.len() {
                self.connections[i].1.max_requests - self.connections[i].1.sent_requests
            } else {
                0
            }),
    {
        if i < 0 || i >= self.connections.len() || !self.connections[i].1.can_request() {
            self
        } else {
            match self.next_piece(self.connections[i].1) {
                None => self.with_cursor(i, None),
                Some(p) => {
                    let at = self.with_cursor(i, Some(p));
                    match at.pieces[p as int].first_free(self.connections[i].0) {
                        None => at,
                        Some(b) => at.request(i, p, b, now).dispatch_one(i, now),
                    }
                },
            }
        }
    }

    /// Requests sent to the peers of the first `n` connections.
    pub open spec fn dispatch_upto(self, n: nat, now: u64) -> TransferModel
        decreases n,
    {
        if n == 0 {
            self
        } else {
            self.dispatch_upto((n - 1) as nat, now).dispatch_one(n - 1, now)
        }
    }

    /// Requests sent to every peer.
    pub open spec fn dispatch(self, now: u64) -> TransferModel {
        self.dispatch_upto(self.connections.len(), now)
    }

    /// A block that came in: answered where it was asked, placed, and the piece
    /// to write where it completes one.
    pub open spec fn receive(
        self,
        peer: PeerId,
        index: usize,
        begin: usize,
        block: Seq<u8>,
        response_time: Option<u64>,
    ) -> (TransferModel, PendingModel) {
        let k = begin as int / BLOCK_SIZE as int;
        let at = self.pieces[index as int];
        if at.obtained(k) {
            (self, PendingModel::Nothing)
        } else {
            let who = at.asked(k);
            let counted = self.with_connection(
                peer,
                |c: ConnectionModel| c.receive_piece(block.len(), response_time, who == Some(peer)),
            );
            let answered = if who is Some && who != Some(peer) {
                counted.with_connection(who->0, |c: ConnectionModel| c.sub_sent_requests(1))
            } else {
                counted
            };
            let (placed, whole) = at.place(k, block, true);
            (
                answered.with_piece(index as int, placed),
                match whole {
                    Some(piece) => PendingModel::Write { index, piece },
                    None => PendingModel::Nothing,
                },
            )
        }
    }

    /// A request for a block: answered at once where the piece is at hand, a
    /// read where it is not, and a refusal where it may not be had.
    pub open spec fn serve(self, peer: PeerId, index: usize, begin: usize, length: usize) -> (
        TransferModel,
        PendingModel,
    ) {
        if !assoc::has_key(self.connections, peer) {
            (self, PendingModel::Nothing)
        } else {
            let c = self.connections[assoc::index_of(self.connections, peer)].1;
            if c.can_upload() && self.bits()[index as int] {
                if piece_cache::holds(self.cache, index) {
                    let whole = piece_cache::held(self.cache, index);
                    (
                        TransferModel {
                            cache: piece_cache::touched(self.cache, index),
                            ..self.with_connection(
                                peer,
                                |c: ConnectionModel|
                                    c.send_piece(
                                        index,
                                        begin,
                                        whole.subrange(begin as int, begin + length),
                                    ),
                            )
                        },
                        PendingModel::Nothing,
                    )
                } else {
                    (self, PendingModel::Read { peer, index, begin, length })
                }
            } else if c.supports_fast {
                (
                    self.with_connection(
                        peer,
                        |c: ConnectionModel|
                            c.send(MessageModel::Reject { index, begin, length }),
                    ),
                    PendingModel::Nothing,
                )
            } else {
                (self, PendingModel::Nothing)
            }
        }
    }

    /// A refusal of a block: it counts only where the block was asked of that peer.
    pub open spec fn refused(self, peer: PeerId, index: usize, begin: usize) -> TransferModel {
        let k = begin as int / BLOCK_SIZE as int;
        let at = self.pieces[index as int];
        if at.asked(k) == Some(peer) {
            self.with_connection(peer, |c: ConnectionModel| c.reject()).with_piece(
                index as int,
                at.reject(k, peer),
            )
        } else {
            self
        }
    }

    /// What a message does before requests go out again.
    pub open spec fn step(self, peer: PeerId, message: MessageModel) -> Result<
        (TransferModel, PendingModel),
        TransferError,
    > {
        let n = self.metadata.num_pieces;
        match message {
            MessageModel::Bitfield(bytes) => {
                if assoc::has_key(self.connections, peer) && bytes.len() != bitfield::bytes_for(
                    n as int,
                ) {
                    Err(
                        TransferError::BitfieldSize {
                            expected: bitfield::bytes_for(n as int) as usize,
                            got: bytes.len() as usize,
                        },
                    )
                } else {
                    Ok(
                        (
                            self.with_connection(
                                peer,
                                |c: ConnectionModel|
                                    ConnectionModel { has: bitfield::bits_of(bytes, n as int), ..c },
                            ),
                            PendingModel::Nothing,
                        ),
                    )
                }
            },
            MessageModel::Have { index } => {
                if index >= n {
                    Err(TransferError::PieceIndex { op: Op::Have, index })
                } else {
                    Ok(
                        (
                            self.with_connection(
                                peer,
                                |c: ConnectionModel|
                                    ConnectionModel { has: c.has.update(index as int, true), ..c },
                            ),
                            PendingModel::Nothing,
                        ),
                    )
                }
            },
            MessageModel::Request { index, begin, length } => match length_error(
                self.metadata,
                index,
                begin,
                length,
                false,
                Op::Request,
            ) {
                Some(e) => Err(e),
                None => Ok(self.serve(peer, index, begin, length)),
            },
            MessageModel::Cancel { index, begin, length } => match length_error(
                self.metadata,
                index,
                begin,
                length,
                true,
                Op::Cancel,
            ) {
                Some(e) => Err(e),
                None => Ok((self, PendingModel::Nothing)),
            },
            MessageModel::Piece { index, begin, piece, response_time } => match begin_error(
                self.metadata,
                index,
                begin,
                true,
                Op::Piece,
            ) {
                Some(e) => Err(e),
                None => Ok(self.receive(peer, index, begin, piece, response_time)),
            },
            MessageModel::Choked(choked) => {
                let told = self.with_connection(
                    peer,
                    |c: ConnectionModel| c.set_peer_choking(choked),
                );
                Ok(
                    (
                        if choked && assoc::has_key(self.connections, peer)
                            && !self.connections[assoc::index_of(
                            self.connections,
                            peer,
                        )].1.supports_fast {
                            told.reset(peer)
                        } else {
                            told
                        },
                        PendingModel::Nothing,
                    ),
                )
            },
            MessageModel::Interested(interested) => Ok(
                (
                    self.with_connection(
                        peer,
                        |c: ConnectionModel|
                            (ConnectionModel { peer_interested: interested, ..c }).set_am_choking(
                                false,
                            ),
                    ),
                    PendingModel::Nothing,
                ),
            ),
            MessageModel::Reject { index, begin, length } => match length_error(
                self.metadata,
                index,
                begin,
                length,
                true,
                Op::Reject,
            ) {
                Some(e) => Err(e),
                None => Ok((self.refused(peer, index, begin), PendingModel::Nothing)),
            },
            MessageModel::HaveAll => Ok(
                (
                    self.with_connection(
                        peer,
                        |c: ConnectionModel|
                            ConnectionModel { has: Seq::new(c.has.len(), |i: int| true), ..c },
                    ),
                    PendingModel::Nothing,
                ),
            ),
            MessageModel::HaveNone => Ok(
                (
                    self.with_connection(
                        peer,
                        |c: ConnectionModel|
                            ConnectionModel { has: Seq::new(c.has.len(), |i: int| false), ..c },
                    ),
                    PendingModel::Nothing,
                ),
            ),
            _ => Ok((self, PendingModel::Nothing)),
        }
    }

    /// What a message does: requests go out again unless the disk comes first.
    pub open spec fn handle(self, peer: PeerId, message: MessageModel, now: u64) -> Result<
        (TransferModel, PendingModel),
        TransferError,
    > {
        match self.step(peer, message) {
            Err(e) => Err(e),
            Ok((next, pending)) => if pending is Nothing {
                Ok((next.dispatch(now), pending))
            } else {
                Ok((next, pending))
            },
        }
    }

    /// A piece that was read for a request: kept, and the block sent.
    pub open spec fn finish_read(
        self,
        peer: PeerId,
        index: usize,
        begin: usize,
        length: usize,
        whole: Seq<u8>,
        now: u64,
    ) -> TransferModel {
        TransferModel {
            cache: piece_cache::inserted(self.cache, PIECE_CACHE_CAPACITY, index, whole),
            ..self.with_connection(
                peer,
                |c: ConnectionModel|
                    c.send_piece(index, begin, whole.subrange(begin as int, begin + length)),
            )
        }.dispatch(now)
    }

    /// The message sent over every connection.
    pub open spec fn broadcast(self, message: MessageModel) -> TransferModel {
        TransferModel {
            connections: Seq::new(
                self.connections.len(),
                |i: int| (self.connections[i].0, self.connections[i].1.send(message)),
            ),
            ..self
        }
    }

    /// A piece that was written: had, counted, and told to peers and trackers.
    pub open spec fn finish_write(self, index: usize, now: u64) -> TransferModel {
        let had = TransferModel {
            have: bitfield::with_bit(self.have, index as int),
            downloaded_pieces: self.downloaded_pieces + 1,
            ..self
        };
        TransferModel {
            announced: tracker::Progress {
                downloaded: had.downloaded() as usize,
                left: had.left() as usize,
                uploaded: had.uploaded as usize,
                event: tracker::Event::Started,
            },
            ..had.broadcast(MessageModel::Have { index })
        }.dispatch(now)
    }

    /// Late requests of the first `n` pieces given up and counted.
    pub open spec fn expire_upto(self, n: nat, now: u64) -> TransferModel
        decreases n,
    {
        if n == 0 {
            self
        } else {
            let before = self.expire_upto((n - 1) as nat, now);
            TransferModel {
                pieces: before.pieces.update(n - 1, before.pieces[n - 1].expire(now)),
                connections: timed_out(
                    before.connections,
                    piece::late_peers(before.pieces[n - 1].blocks, now),
                ),
                ..before
            }
        }
    }

    /// A second ended on every connection.
    pub open spec fn statistics(self) -> TransferModel {
        TransferModel {
            connections: Seq::new(
                self.connections.len(),
                |i: int| (self.connections[i].0, self.connections[i].1.reset_stats()),
            ),
            uploaded: self.uploaded + sum_uploaded(self.connections),
            ..self
        }
    }

    /// What happens once a second.
    pub open spec fn tick(self, now: u64) -> TransferModel {
        self.expire_upto(self.pieces.len(), now).statistics().dispatch(now)
    }
}

} // verus!
