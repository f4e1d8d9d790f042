//! The exchange of pieces with the connected peers.

pub mod asking;
pub mod connection;
pub mod dealing;
pub mod laws;
pub mod model;
pub mod piece_cache;

use crate::assoc;
use crate::bitfield;
use crate::bitfield::Bitfield;
use crate::bytes;
use crate::metainfo;
use crate::metainfo::Metadata;
use crate::number;
use crate::peer_map::PeerMap;
use crate::proto::bit_torrent::{Message, MessageModel};
use crate::proto::tracker;
use crate::text;
use crate::torrent::control::{
    ConnectionProgress, FileInfo, FileInfoView, PeerProgress, PieceProgress, PieceProgressView,
    Progress, TransferProgress,
};
use crate::torrent::piece;
use crate::torrent::piece::{Piece, PieceModel};
use crate::types::PeerId;
use connection::{Connection, ConnectionModel, Report};
use model::{
    Op, PendingModel, TransferError, TransferModel, BLOCK_SIZE, PIECE_CACHE_CAPACITY,
};
use piece_cache::PieceCache;
use vstd::prelude::*;

verus! {

/// Work that has to be done on disk before the transfer can go on. A piece that
/// was read goes to [`Transfer::finish_read`]; after a write comes
/// [`Transfer::finish_write`].
#[derive(Debug)]
pub enum Pending {
    Nothing,
    Read { peer: PeerId, index: usize, begin: usize, length: usize },
    Write { index: usize, piece: Vec<u8> },
}

impl View for Pending {
    type V = PendingModel;

    open spec fn view(&self) -> PendingModel {
        match *self {
            Pending::Nothing => PendingModel::Nothing,
            Pending::Read { peer, index, begin, length } => PendingModel::Read {
                peer,
                index,
                begin,
                length,
            },
            Pending::Write { index, piece } => PendingModel::Write { index, piece: piece@ },
        }
    }
}

/// A run of bytes of a piece and where it lies on disk.
#[derive(Debug)]
pub struct DiskRun {
    pub path: Vec<String>,
    pub file_length: usize,
    pub file_offset: usize,
    pub piece_offset: usize,
    pub length: usize,
}

/// The exchange of a torrent's pieces.
#[derive(Debug)]
pub struct Transfer {
    pub metadata: Metadata,
    pub pieces: Vec<Piece>,
    pub piece_bitfield: Bitfield,
    pub connections: PeerMap<Connection>,
    pub piece_cache: PieceCache,
    pub downloaded_pieces: usize,
    pub uploaded: usize,
    /// What the trackers should be told.
    pub announced: tracker::Progress,
}

/// The contents of a list of pieces.
pub open spec fn piece_views(s: Seq<Piece>) -> Seq<PieceModel> {
    s.map_values(|p: Piece| p@)
}

/// The contents of a list of connections.
pub open spec fn connection_views(s: Seq<(PeerId, Connection)>) -> Seq<(PeerId, ConnectionModel)> {
    s.map_values(|e: (PeerId, Connection)| (e.0, e.1@))
}

impl View for Transfer {
    type V = TransferModel;

    open spec fn view(&self) -> TransferModel {
        TransferModel {
            metadata: self.metadata,
            pieces: piece_views(self.pieces@),
            have: self.piece_bitfield.bytes@,
            connections: connection_views(self.connections@),
            cache: self.piece_cache@,
            downloaded_pieces: self.downloaded_pieces as nat,
            uploaded: self.uploaded as nat,
            announced: self.announced,
        }
    }
}

/// A transfer that starts with the pieces that `have` marks.
pub open spec fn started(metadata: Metadata, have: Seq<u8>) -> TransferModel {
    let bare = TransferModel {
        metadata,
        pieces: Seq::new(
            metadata.num_pieces as nat,
            |p: int|
                piece::fresh(
                    Some(p as usize),
                    BLOCK_SIZE,
                    metadata.piece_len(p) as usize,
                    metadata.pieces@[p],
                    bitfield::bit_of(have, p),
                ),
        ),
        have,
        connections: Seq::empty(),
        cache: Seq::empty(),
        downloaded_pieces: bitfield::count_set(
            bitfield::bits_of(have, metadata.num_pieces as int),
        ),
        uploaded: 0,
        announced: tracker::Progress {
            downloaded: 0,
            left: 0,
            uploaded: 0,
            event: tracker::Event::Started,
        },
    };
    TransferModel {
        announced: tracker::Progress {
            downloaded: bare.downloaded() as usize,
            left: bare.left() as usize,
            uploaded: 0,
            event: tracker::Event::Started,
        },
        ..bare
    }
}

/// What a block's arrival shows of the transfer, if there is one to show: the
/// counters and the pieces.
pub open spec fn shows_blocks(
    m: TransferModel,
    before: Option<TransferProgress>,
    after: Option<TransferProgress>,
) -> bool {
    match before {
        None => after is None,
        Some(b) => {
            &&& after matches Some(a)
            &&& a == (TransferProgress {
                downloaded: m.downloaded() as usize,
                piece_bitfield: a.piece_bitfield,
                active_pieces: a.active_pieces,
                ..b
            })
            &&& a.piece_bitfield.wf()
            &&& a.piece_bitfield@ == m.bits()
            &&& progress_views(a.active_pieces@) == model::active_pieces(m.pieces)
        },
    }
}

/// The progress that a block's arrival leads to.
pub open spec fn shows_pieces(m: TransferModel, before: Progress, after: Progress) -> bool {
    &&& after == (Progress { transfer: after.transfer, ..before })
    &&& shows_blocks(m, before.transfer, after.transfer)
}

/// What a list of pieces' progress says.
pub open spec fn progress_views(s: Seq<PieceProgress>) -> Seq<PieceProgressView> {
    s.map_values(|p: PieceProgress| p@)
}

/// What a list of files says.
pub open spec fn file_views(s: Seq<FileInfo>) -> Seq<FileInfoView> {
    s.map_values(|f: FileInfo| f@)
}

/// How a torrent's files are shown: by their path below the torrent's own
/// directory.
pub open spec fn shown_files(files: Seq<metainfo::FileEntry>) -> Seq<FileInfoView> {
    files.map_values(
        |f: metainfo::FileEntry|
            FileInfoView {
                relative_path: text::joined(
                    text::texts(f.path@).skip(
                        if f.path@.len() == 0 {
                            0
                        } else {
                            1
                        },
                    ),
                    seq!['/'],
                ),
                size: f.length,
            },
    )
}

/// Whether a message's arrival shows in the progress: a block that was missing.
pub open spec fn is_news(m: TransferModel, message: MessageModel) -> bool {
    match message {
        MessageModel::Piece { index, begin, .. } => {
            &&& model::begin_error(m.metadata, index, begin, true, Op::Piece) is None
            &&& !m.pieces[index as int].obtained(begin as int / BLOCK_SIZE as int)
        },
        _ => false,
    }
}

/// What the second shows of each peer that has a connection.
pub open spec fn shows_connections(
    m: TransferModel,
    before: Seq<(PeerId, PeerProgress)>,
    after: Seq<(PeerId, PeerProgress)>,
) -> bool {
    &&& after.len() == before.len()
    &&& forall|i: int|
        0 <= i < before.len() ==> {
            let (id, b) = before[i];
            let (id2, a) = #[trigger] after[i];
            &&& id2 == id
            &&& if assoc::has_key(m.connections, id) {
                &&& a == (PeerProgress { connection: a.connection, ..b })
                &&& a.connection matches Some(c)
                &&& c@ == model::connection_view(
                    m.connections[assoc::index_of(m.connections, id)].1,
                )
                &&& c.piece_bitfield.wf()
            } else {
                a == b
            }
        }
}

/// What the second shows of the transfer; `m` is the transfer as it was before
/// its counters started over.
pub open spec fn shows_speeds(
    m: TransferModel,
    before: Option<TransferProgress>,
    after: TransferProgress,
) -> bool {
    let total = m.uploaded + model::sum_uploaded(m.connections);
    &&& after.down_speed == model::sum_downloaded(m.connections)
    &&& after.up_speed == model::sum_uploaded(m.connections)
    &&& after.uploaded == total
    &&& match before {
        Some(b) => after == (TransferProgress {
            down_speed: after.down_speed,
            up_speed: after.up_speed,
            uploaded: after.uploaded,
            ..b
        }),
        None => {
            &&& file_views(after.files@) == shown_files(m.metadata.files@)
            &&& after.size == m.metadata.length
            &&& after.downloaded == m.downloaded()
            &&& after.piece_bitfield.wf()
            &&& after.piece_bitfield@ == m.bits()
            &&& after.active_pieces@.len() == 0
            &&& after.percentage@.len() == 0
        },
    }
}

/// Lists of connections and their contents have the same keys.
proof fn lemma_view_keys(s: Seq<(PeerId, Connection)>)
    requires
        assoc::distinct_keys(connection_views(s)),
    ensures
        assoc::distinct_keys(s),
        forall|q: PeerId| #[trigger]
            assoc::has_key(s, q) == assoc::has_key(connection_views(s), q),
        forall|q: PeerId|
            assoc::has_key(s, q) ==> #[trigger] assoc::index_of(s, q) == assoc::index_of(
                connection_views(s),
                q,
            ),
{
    let v = connection_views(s);
    assert forall|i: int, j: int| 0 <= i < j < s.len() implies (#[trigger] s[i]).0 != (
    #[trigger] s[j]).0 by {
        assert(v[i].0 != v[j].0);
    }
    assert forall|q: PeerId| #[trigger] assoc::has_key(s, q) == assoc::has_key(v, q) by {
        if assoc::has_key(s, q) {
            assert(assoc::key_at(v, assoc::index_of(s, q), q)) by {
                assert(assoc::key_at(s, assoc::index_of(s, q), q));
            }
        }
        if assoc::has_key(v, q) {
            assert(assoc::key_at(s, assoc::index_of(v, q), q)) by {
                assert(assoc::key_at(v, assoc::index_of(v, q), q));
            }
        }
    }
    assert forall|q: PeerId| assoc::has_key(s, q) implies #[trigger] assoc::index_of(s, q)
        == assoc::index_of(v, q) by {
        let i = assoc::index_of(s, q);
        assert(assoc::key_at(s, i, q));
        assert(assoc::key_at(v, i, q));
        assoc::lemma_index_unique(v, i, q);
    }
}

impl Transfer {
    /// The parts that the model does not show are in order.
    pub open spec fn parts_ok(self) -> bool {
        &&& self.piece_bitfield.length == self.metadata.num_pieces
        &&& self.piece_cache.capacity == PIECE_CACHE_CAPACITY
        &&& forall|i: int|
            0 <= i < self.connections@.len() ==> (
            #[trigger] self.connections@[i]).1.piece_bitfield.wf()
    }

    /// A transfer's parts agree with each other.
    pub open spec fn wf(self) -> bool {
        self@.wf() && self.parts_ok()
    }

    /// What has been downloaded and what is left, in bytes.
    pub fn downloaded_left(&self) -> (r: (usize, usize))
        requires
            self.wf(),
        ensures
            r.0 == self@.downloaded(),
            r.1 == self@.left(),
    {
        proof {
            bitfield::lemma_count_set_bound(self@.bits());
            let d = self.downloaded_pieces as int;
            let n = self.metadata.num_pieces as int;
            let pl = self.metadata.piece_length as int;
            assert(0 <= d * pl <= n * pl) by (nonlinear_arith)
                requires
                    0 <= d <= n,
                    pl > 0,
            ;
        }
        let whole = self.downloaded_pieces * self.metadata.piece_length;
        let downloaded = if whole <= self.metadata.length {
            whole
        } else {
            self.metadata.length
        };
        (downloaded, self.metadata.length - downloaded)
    }

    /// Where the connection to a peer stands.
    fn find(&self, peer: &PeerId) -> (r: Option<usize>)
        requires
            assoc::distinct_keys(self@.connections),
        ensures
            match r {
                Some(i) => {
                    &&& i < self.connections@.len()
                    &&& self.connections@[i as int].0 == *peer
                    &&& assoc::has_key(self@.connections, *peer)
                    &&& assoc::index_of(self@.connections, *peer) == i
                },
                None => !assoc::has_key(self@.connections, *peer),
            },
    {
        proof {
            lemma_view_keys(self.connections@);
        }
        self.connections.position(peer)
    }

    /// Whether every connection's counters can take what a message may add.
    pub fn has_room(&self, message: &Message) -> (r: bool)
        ensures
            r ==> self@.room(model::weight(message@)),
            !r ==> !self@.room(model::weight(message@)) || model::weight(message@) > usize::MAX,
    {
        let amount = match message {
            Message::Piece { piece, .. } => piece.len(),
            Message::Request { length, .. } => *length,
            _ => 0,
        };
        if amount == usize::MAX {
            return false;
        }
        let mut i: usize = 0;
        while i < self.connections.entries.len()
            invariant
                i <= self.connections@.len(),
                model::weight(message@) == amount + 1,
                amount < usize::MAX,
                forall|j: int|
                    0 <= j < i ==> (#[trigger] self@.connections[j]).1.room(
                        model::weight(message@),
                    ),
            decreases self.connections@.len() - i,
        {
            assert(self@.connections[i as int].1 == self.connections@[i as int].1@);
            if !self.connections.entries[i].1.has_room(amount + 1) {
                return false;
            }
            i += 1;
        }
        true
    }

    /// Whether no index of `op` leads outside the pieces.
    fn check_piece_index(&self, index: usize, op: Op) -> (r: Result<(), TransferError>)
        ensures
            r is Ok <==> index < self.metadata.num_pieces,
            r matches Err(e) ==> e == (TransferError::PieceIndex { op, index }),
    {
        if index < self.metadata.num_pieces {
            Ok(())
        } else {
            Err(TransferError::PieceIndex { op, index })
        }
    }

    /// Whether an offset lies in its piece, at a block boundary if it has to.
    fn check_piece_begin(&self, index: usize, begin: usize, boundary: bool, op: Op) -> (r: Result<
        (),
        TransferError,
    >)
        requires
            self.wf(),
        ensures
            match r {
                Ok(()) => model::begin_error(self.metadata, index, begin, boundary, op) is None,
                Err(e) => model::begin_error(self.metadata, index, begin, boundary, op) == Some(e),
            },
    {
        if let Err(e) = self.check_piece_index(index, op) {
            return Err(e);
        }
        if boundary && begin % BLOCK_SIZE != 0 {
            return Err(TransferError::Boundary { op, begin });
        }
        let piece_length = self.metadata.piece_length(index);
        if begin >= piece_length {
            return Err(TransferError::Begin { op, index, piece_length, begin });
        }
        Ok(())
    }

    /// Whether a run of bytes lies in its piece, and is a block if it has to be.
    fn check_piece_length(
        &self,
        index: usize,
        begin: usize,
        length: usize,
        boundary: bool,
        op: Op,
    ) -> (r: Result<(), TransferError>)
        requires
            self.wf(),
        ensures
            match r {
                Ok(()) => model::length_error(self.metadata, index, begin, length, boundary, op)
                    is None,
                Err(e) => model::length_error(self.metadata, index, begin, length, boundary, op)
                    == Some(e),
            },
    {
        if let Err(e) = self.check_piece_begin(index, begin, boundary, op) {
            return Err(e);
        }
        let piece_length = self.metadata.piece_length(index);
        if boundary && length != BLOCK_SIZE {
            return Err(TransferError::BlockLength { length });
        }
        if length > piece_length - begin {
            return Err(TransferError::Length { op, index, piece_length, begin, length });
        }
        Ok(())
    }

    /// Whether each connection counts as many requests as being out as there are
    /// blocks asked of its peer.
    pub fn check_request_accounting(&self) -> (r: bool)
        requires
            self.wf(),
        ensures
            r == forall|i: int|
                0 <= i < self@.connections.len() ==> (
                #[trigger] self@.connections[i]).1.sent_requests == model::total_asked(
                    self@.pieces,
                    self@.connections[i].0,
                ),
    {
        let mut i: usize = 0;
        while i < self.connections.entries.len()
            invariant
                i <= self.connections@.len(),
                self.wf(),
                forall|j: int|
                    0 <= j < i ==> (#[trigger] self@.connections[j]).1.sent_requests
                        == model::total_asked(self@.pieces, self@.connections[j].0),
            decreases self.connections@.len() - i,
        {
            assert(self@.connections[i as int].0 == self.connections@[i as int].0);
            assert(self@.connections[i as int].1 == self.connections@[i as int].1@);
            let peer = self.connections.entries[i].0;
            let sent = self.connections.entries[i].1.sent_requests;
            match self.total_asked(&peer) {
                Some(total) => {
                    if total != sent {
                        return false;
                    }
                },
                None => {
                    return false;
                },
            }
            i += 1;
        }
        true
    }

    /// How many blocks are asked of a peer, unless they are too many to count.
    fn total_asked(&self, peer: &PeerId) -> (r: Option<usize>)
        ensures
            match r {
                Some(total) => total == model::total_asked(self@.pieces, *peer),
                None => model::total_asked(self@.pieces, *peer) > usize::MAX,
            },
    {
        let mut total: usize = 0;
        let mut p: usize = 0;
        while p < self.pieces.len()
            invariant
                p <= self.pieces@.len(),
                total == model::total_asked(self@.pieces.take(p as int), *peer),
            decreases self.pieces@.len() - p,
        {
            let ghost seen = self@.pieces.take(p as int + 1);
            assert(seen.drop_last() =~= self@.pieces.take(p as int));
            assert(seen.last() == self.pieces@[p as int]@);
            let n = self.pieces[p].num_downloading(peer);
            match total.checked_add(n) {
                Some(sum) => {
                    total = sum;
                },
                None => {
                    proof {
                        lemma_total_prefix(self@.pieces, p as int + 1, *peer);
                    }
                    return None;
                },
            }
            p += 1;
        }
        assert(self@.pieces.take(p as int) =~= self@.pieces);
        Some(total)
    }

    /// Gives up all requests to a peer.
    fn reset_pieces(&mut self, peer: &PeerId)
        requires
            old(self).wf(),
        ensures
            final(self).wf(),
            final(self)@ == old(self)@.reset(*peer),
            final(self).connections == old(self).connections,
    {
        let ghost after = old(self)@.reset(*peer).pieces;
        let mut p: usize = 0;
        while p < self.pieces.len()
            invariant
                p <= self.pieces@.len(),
                old(self).wf(),
                self.pieces@.len() == old(self).pieces@.len(),
                after == old(self)@.reset(*peer).pieces,
                *self == (Transfer { pieces: self.pieces, ..*old(self) }),
                forall|q: int| 0 <= q < p ==> (#[trigger] self.pieces@[q])@ == after[q],
                forall|q: int|
                    p <= q < self.pieces@.len() ==> #[trigger] self.pieces@[q] == old(
                        self,
                    ).pieces@[q],
            decreases self.pieces@.len() - p,
        {
            proof {
                assert(old(self)@.piece_ok(p as int));
                assert(old(self)@.pieces[p as int] == old(self).pieces@[p as int]@);
            }
            self.pieces[p].reset(peer);
            p += 1;
        }
        proof {
            assert(self@.pieces =~= after);
            laws::lemma_reset_wf(old(self)@, *peer);
        }
    }
}

impl Transfer {
    /// The piece that a connection works on next.
    fn find_or_keep_piece(&self, i: usize) -> (r: Option<usize>)
        requires
            self.wf(),
            i < self.connections@.len(),
        ensures
            r == self@.next_piece(self@.connections[i as int].1),
            r matches Some(p) ==> p < self.metadata.num_pieces,
    {
        let target = &self.connections.entries[i].1;
        proof {
            assert(self@.connections[i as int].1 == target@);
            assert(self@.connections[i as int].1.wf(self.metadata.num_pieces as nat));
            laws::lemma_next_piece(self@, target@);
        }
        if let Some(cursor) = target.piece_cursor {
            assert(self@.pieces[cursor as int] == self.pieces@[cursor as int]@);
            if self.pieces[cursor].is_available() {
                return Some(cursor);
            }
        }
        let mut j: usize = 0;
        while j < self.connections.entries.len()
            invariant
                j <= self.connections@.len(),
                self.wf(),
                i < self.connections@.len(),
                target@ == self@.connections[i as int].1,
                target.piece_bitfield.wf(),
                target@.wf(self.metadata.num_pieces as nat),
                self@.shared_from(target@.has, 0) == self@.shared_from(target@.has, j as int),
                self@.shared_from(target@.has, 0) is Some ==> self@.next_piece(target@)
                    == self@.shared_from(target@.has, 0),
            decreases self.connections@.len() - j,
        {
            assert(self@.connections[j as int].1 == self.connections@[j as int].1@);
            assert(self@.connections[j as int].1.wf(self.metadata.num_pieces as nat));
            if let Some(cursor) = self.connections.entries[j].1.piece_cursor {
                assert(self@.pieces[cursor as int] == self.pieces@[cursor as int]@);
                if self.pieces[cursor].is_available() && target.has_piece(cursor) {
                    return Some(cursor);
                }
            }
            j += 1;
        }
        let mut p: usize = 0;
        while p < self.pieces.len()
            invariant
                p <= self.pieces@.len(),
                self.wf(),
                i < self.connections@.len(),
                target@ == self@.connections[i as int].1,
                target.piece_bitfield.wf(),
                target@.wf(self.metadata.num_pieces as nat),
                self@.open_from(target@.has, 0) == self@.open_from(target@.has, p as int),
                self@.next_piece(target@) == self@.open_from(target@.has, 0),
            decreases self.pieces@.len() - p,
        {
            assert(self@.pieces[p as int] == self.pieces@[p as int]@);
            if self.pieces[p].is_available() && target.has_piece(p) {
                return Some(p);
            }
            p += 1;
        }
        None
    }

    /// Asks the peer of connection `i` for a block.
    fn request_block(&mut self, i: usize, p: usize, b: usize, now: u64)
        requires
            old(self).wf(),
            i < old(self).connections@.len(),
            p < old(self).metadata.num_pieces,
            b < old(self)@.pieces[p as int].blocks.len(),
            old(self)@.pieces[p as int].blocks[b as int] is Free,
            old(self)@.connections[i as int].1.can_request(),
        ensures
            final(self).wf(),
            final(self)@ == old(self)@.request(i as int, p, b, now),
    {
        let ghost before = self@;
        proof {
            assert(before.piece_ok(p as int));
            assert(before.pieces[p as int] == self.pieces@[p as int]@);
            assert(before.connections[i as int].1 == self.connections@[i as int].1@);
            assert(before.connections[i as int].1.wf(self.metadata.num_pieces as nat));
            piece::lemma_block_bounds(before.pieces[p as int], b as int);
            assert(BLOCK_SIZE * b == b * BLOCK_SIZE) by (nonlinear_arith);
        }
        let peer = self.connections.entries[i].0;
        let piece_length = self.metadata.piece_length(p);
        let begin = BLOCK_SIZE * b;
        let length = if piece_length - begin < BLOCK_SIZE {
            piece_length - begin
        } else {
            BLOCK_SIZE
        };
        self.connections.entries[i].1.request(p, begin, length);
        self.pieces[p].download(b, peer, now);
        proof {
            let after = before.request(i as int, p, b, now);
            assert(self@.connections =~= after.connections);
            assert(self@.pieces =~= after.pieces);
            assert(self@ =~= after);
            laws::lemma_request_wf(before, i as int, p, b, now);
        }
    }

    /// Moves connection `i` to another piece, or to none.
    fn set_cursor(&mut self, i: usize, cursor: Option<usize>)
        requires
            old(self).wf(),
            i < old(self).connections@.len(),
            cursor matches Some(p) ==> p < old(self).metadata.num_pieces,
        ensures
            final(self).wf(),
            final(self)@ == old(self)@.with_cursor(i as int, cursor),
    {
        let ghost before = self@;
        self.connections.entries[i].1.piece_cursor = cursor;
        proof {
            assert(self@.connections =~= before.with_cursor(i as int, cursor).connections);
            laws::lemma_with_cursor_wf(before, i as int, cursor);
        }
    }

    /// Sends requests to the peer of connection `i` until no more may be out or
    /// there is nothing to ask of it.
    fn dispatch_connection(&mut self, i: usize, now: u64)
        requires
            old(self).wf(),
            i < old(self).connections@.len(),
        ensures
            final(self).wf(),
            final(self)@ == old(self)@.dispatch_one(i as int, now),
    {
        while self.connections.entries[i].1.can_request()
            invariant
                self.wf(),
                i < self.connections@.len(),
                old(self)@.dispatch_one(i as int, now) == self@.dispatch_one(i as int, now),
            decreases
                    self.connections@[i as int].1.max_requests
                        - self.connections@[i as int].1.sent_requests,
        {
            let ghost before = self@;
            assert(before.connections[i as int] == (
                self.connections@[i as int].0,
                self.connections@[i as int].1@,
            ));
            match self.find_or_keep_piece(i) {
                Some(p) => {
                    let peer = self.connections.entries[i].0;
                    self.set_cursor(i, Some(p));
                    assert(self@.pieces[p as int] == self.pieces@[p as int]@);
                    assert(self@.connections[i as int].1 == self.connections@[i as int].1@);
                    match self.pieces[p].find_available_block(&peer) {
                        Some(b) => {
                            self.request_block(i, p, b, now);
                            assert(self@.connections[i as int].1 == self.connections@[i as int].1@);
                        },
                        None => {
                            return;
                        },
                    }
                },
                None => {
                    self.set_cursor(i, None);
                    return;
                },
            }
        }
        assert(self@.connections[i as int].1 == self.connections@[i as int].1@);
    }

    /// Sends requests to every peer.
    fn dispatch_requests(&mut self, now: u64)
        requires
            old(self).wf(),
        ensures
            final(self).wf(),
            final(self)@ == old(self)@.dispatch(now),
    {
        let n = self.connections.entries.len();
        let mut i: usize = 0;
        while i < n
            invariant
                i <= n,
                n == old(self).connections@.len(),
                self.wf(),
                self.connections@.len() == n,
                self@ == old(self)@.dispatch_upto(i as nat, now),
            decreases n - i,
        {
            proof {
                laws::lemma_dispatch_one_wf(self@, i as int, now);
            }
            let ghost before = self@;
            self.dispatch_connection(i, now);
            assert(self@.connections.len() == before.connections.len());
            i += 1;
        }
    }
}

impl Transfer {
    /// The pieces that work is being done on.
    fn active_pieces(&self) -> (r: Vec<PieceProgress>)
        ensures
            progress_views(r@) == model::active_pieces(self@.pieces),
    {
        let mut r: Vec<PieceProgress> = Vec::new();
        let mut p: usize = 0;
        assert(progress_views(r@) =~= Seq::<PieceProgressView>::empty());
        while p < self.pieces.len()
            invariant
                p <= self.pieces@.len(),
                progress_views(r@) == model::active_pieces(self@.pieces.take(p as int)),
            decreases self.pieces@.len() - p,
        {
            let ghost seen = self@.pieces.take(p as int + 1);
            assert(seen.drop_last() =~= self@.pieces.take(p as int));
            assert(seen.last() == self.pieces@[p as int]@);
            let piece = &self.pieces[p];
            if piece.is_active() {
                let ghost before = progress_views(r@);
                let entry = PieceProgress {
                    index: p,
                    num_blocks: piece.num_blocks(),
                    num_obtained_blocks: piece.obtained_blocks(),
                    block_bitfield: piece.to_bitfield(),
                    percentage: String::new(),
                };
                let ghost view = entry@;
                r.push(entry);
                assert(progress_views(r@) =~= before.push(view));
            }
            p += 1;
        }
        assert(self@.pieces.take(p as int) =~= self@.pieces);
        r
    }

    /// Shows the state of the pieces.
    fn report_pieces(&self, progress: &mut Progress)
        requires
            self.wf(),
        ensures
            shows_pieces(self@, *old(progress), *final(progress)),
    {
        let (downloaded, _) = self.downloaded_left();
        let piece_bitfield = self.piece_bitfield.copy();
        let active_pieces = self.active_pieces();
        let transfer = &mut progress.transfer;
        if let Some(t) = transfer {
            t.downloaded = downloaded;
            t.piece_bitfield = piece_bitfield;
            t.active_pieces = active_pieces;
        }
    }

    fn on_bitfield(&mut self, peer: &PeerId, bitfield: &Bitfield) -> (r: Result<(), TransferError>)
        requires
            old(self).wf(),
        ensures
            match r {
                Ok(()) => final(self).parts_ok() && old(self)@.step(
                    *peer,
                    MessageModel::Bitfield(bitfield.bytes@),
                ) == Ok::<_, TransferError>((final(self)@, PendingModel::Nothing)),
                Err(e) => *final(self) == *old(self) && old(self)@.step(
                    *peer,
                    MessageModel::Bitfield(bitfield.bytes@),
                ) == Err::<(TransferModel, PendingModel), _>(e),
            },
    {
        let ghost before = self@;
        if let Some(i) = self.find(peer) {
            assert(before.connections[i as int].1 == self.connections@[i as int].1@);
            assert(before.connections[i as int].1.wf(self.metadata.num_pieces as nat));
            let expected = self.connections.entries[i].1.piece_bitfield.num_bytes();
            if bitfield.num_bytes() != expected {
                return Err(TransferError::BitfieldSize { expected, got: bitfield.num_bytes() });
            }
            let r = self.connections.entries[i].1.set_bitfield(bitfield);
            assert(r is Ok);
            let ghost f = |c: ConnectionModel|
                ConnectionModel {
                    has: bitfield::bits_of(bitfield.bytes@, self.metadata.num_pieces as int),
                    ..c
                };
            assert(self@.connections =~= model::modified(before.connections, *peer, f));
            assert(self@ =~= before.with_connection(*peer, f));
        }
        Ok(())
    }

    fn on_have(&mut self, peer: &PeerId, index: usize)
        requires
            old(self).wf(),
            index < old(self).metadata.num_pieces,
        ensures
            final(self).parts_ok(),
            old(self)@.step(*peer, MessageModel::Have { index }) == Ok::<_, TransferError>(
                (final(self)@, PendingModel::Nothing),
            ),
    {
        let ghost before = self@;
        if let Some(i) = self.find(peer) {
            assert(before.connections[i as int].1 == self.connections@[i as int].1@);
            assert(before.connections[i as int].1.wf(self.metadata.num_pieces as nat));
            self.connections.entries[i].1.set_piece(index);
            let ghost f = |c: ConnectionModel|
                ConnectionModel { has: c.has.update(index as int, true), ..c };
            assert(self@.connections =~= model::modified(before.connections, *peer, f));
            assert(self@ =~= before.with_connection(*peer, f));
        }
    }

    fn on_have_all_or_none(&mut self, peer: &PeerId, all: bool)
        requires
            old(self).wf(),
        ensures
            final(self).parts_ok(),
            old(self)@.step(
                *peer,
                if all {
                    MessageModel::HaveAll
                } else {
                    MessageModel::HaveNone
                },
            ) == Ok::<_, TransferError>((final(self)@, PendingModel::Nothing)),
    {
        let ghost before = self@;
        if let Some(i) = self.find(peer) {
            assert(before.connections[i as int].1 == self.connections@[i as int].1@);
            if all {
                self.connections.entries[i].1.set_pieces();
                let ghost f = |c: ConnectionModel|
                    ConnectionModel { has: Seq::new(c.has.len(), |i: int| true), ..c };
                assert(self@.connections =~= model::modified(before.connections, *peer, f));
                assert(self@ =~= before.with_connection(*peer, f));
            } else {
                self.connections.entries[i].1.unset_pieces();
                let ghost f = |c: ConnectionModel|
                    ConnectionModel { has: Seq::new(c.has.len(), |i: int| false), ..c };
                assert(self@.connections =~= model::modified(before.connections, *peer, f));
                assert(self@ =~= before.with_connection(*peer, f));
            }
        }
    }

    fn on_choked(&mut self, peer: &PeerId, choked: bool)
        requires
            old(self).wf(),
            old(self)@.room(1),
        ensures
            final(self).parts_ok(),
            old(self)@.step(*peer, MessageModel::Choked(choked)) == Ok::<_, TransferError>(
                (final(self)@, PendingModel::Nothing),
            ),
    {
        let ghost before = self@;
        if let Some(i) = self.find(peer) {
            assert(before.connections[i as int].1 == self.connections@[i as int].1@);
            assert(before.connections[i as int].1.room(1));
            let supports_fast = self.connections.entries[i].1.supports_fast;
            self.connections.entries[i].1.set_peer_choking(choked);
            let ghost f = |c: ConnectionModel| c.set_peer_choking(choked);
            proof {
                assert(self@.connections =~= model::modified(before.connections, *peer, f));
                assert(self@ =~= before.with_connection(*peer, f));
                laws::lemma_with_connection_wf(before, *peer, f);
            }
            if choked && !supports_fast {
                self.reset_pieces(peer);
            }
        }
    }

    fn on_interested(&mut self, peer: &PeerId, interested: bool)
        requires
            old(self).wf(),
        ensures
            final(self).parts_ok(),
            old(self)@.step(*peer, MessageModel::Interested(interested)) == Ok::<_, TransferError>(
                (final(self)@, PendingModel::Nothing),
            ),
    {
        let ghost before = self@;
        if let Some(i) = self.find(peer) {
            assert(before.connections[i as int].1 == self.connections@[i as int].1@);
            self.connections.entries[i].1.set_peer_interested(interested);
            self.connections.entries[i].1.set_am_choking(false);
            let ghost f = |c: ConnectionModel|
                (ConnectionModel { peer_interested: interested, ..c }).set_am_choking(false);
            assert(self@.connections =~= model::modified(before.connections, *peer, f));
            assert(self@ =~= before.with_connection(*peer, f));
        }
    }

    fn on_reject(&mut self, peer: &PeerId, index: usize, begin: usize)
        requires
            old(self).wf(),
            old(self)@.room(1),
            index < old(self).metadata.num_pieces,
        ensures
            final(self).parts_ok(),
            final(self)@ == old(self)@.refused(*peer, index, begin),
    {
        let ghost before = self@;
        let k = begin / BLOCK_SIZE;
        proof {
            assert(before.piece_ok(index as int));
            assert(before.pieces[index as int] == self.pieces@[index as int]@);
        }
        if let Some(who) = self.pieces[index].who_downloading(k) {
            if who == *peer {
                let ghost f = |c: ConnectionModel| c.reject();
                if let Some(i) = self.find(peer) {
                    assert(before.connections[i as int].1 == self.connections@[i as int].1@);
                    assert(before.connections[i as int].1.room(1));
                    self.connections.entries[i].1.reject();
                }
                assert(self@.connections =~= model::modified(before.connections, *peer, f));
                self.pieces[index].reject(k, *peer);
                assert(self@.pieces =~= before.refused(*peer, index, begin).pieces);
                assert(self@ =~= before.refused(*peer, index, begin));
            }
        }
    }

    fn on_request(&mut self, peer: &PeerId, index: usize, begin: usize, length: usize) -> (r:
        Pending)
        requires
            old(self).wf(),
            old(self)@.room((length + 1) as nat),
            index < old(self).metadata.num_pieces,
            begin + length <= old(self).metadata.piece_len(index as int),
        ensures
            final(self).parts_ok(),
            old(self)@.serve(*peer, index, begin, length) == (final(self)@, r@),
    {
        let ghost before = self@;
        if let Some(i) = self.find(peer) {
            assert(before.connections[i as int].1 == self.connections@[i as int].1@);
            assert(before.connections[i as int].1.room((length + 1) as nat));
            if self.connections.entries[i].1.can_upload() && self.piece_bitfield.has(index) {
                if self.piece_cache.touch(index) {
                    let last = self.piece_cache.entries.len() - 1;
                    let ghost whole = piece_cache::held(before.cache, index);
                    proof {
                        let k = piece_cache::position(before.cache, index);
                        assert(piece_cache::key_at(before.cache, k, index));
                        assert(before.cached_ok(k));
                        assert(self.piece_cache@.last() == (
                            index,
                            self.piece_cache.entries@[last as int].1@,
                        ));
                    }
                    let block = bytes::copy_range(
                        self.piece_cache.entries[last].1.as_slice(),
                        begin,
                        begin + length,
                    );
                    self.connections.entries[i].1.send_piece(index, begin, block);
                    let ghost f = |c: ConnectionModel|
                        c.send_piece(
                            index,
                            begin,
                            whole.subrange(begin as int, begin + length),
                        );
                    assert(self@.connections =~= model::modified(before.connections, *peer, f));
                    assert(self@ =~= before.serve(*peer, index, begin, length).0);
                    Pending::Nothing
                } else {
                    assert(self@ =~= before);
                    Pending::Read { peer: *peer, index, begin, length }
                }
            } else if self.connections.entries[i].1.supports_fast {
                self.connections.entries[i].1.send(Message::Reject { index, begin, length });
                let ghost f = |c: ConnectionModel|
                    c.send(MessageModel::Reject { index, begin, length });
                assert(self@.connections =~= model::modified(before.connections, *peer, f));
                assert(self@ =~= before.serve(*peer, index, begin, length).0);
                Pending::Nothing
            } else {
                Pending::Nothing
            }
        } else {
            Pending::Nothing
        }
    }

    fn on_piece(
        &mut self,
        peer: &PeerId,
        index: usize,
        begin: usize,
        block: Vec<u8>,
        response_time: Option<u64>,
        progress: &mut Progress,
    ) -> (r: Pending)
        requires
            old(self).wf(),
            old(self)@.room(block@.len() + 1),
            index < old(self).metadata.num_pieces,
            begin < old(self).metadata.piece_len(index as int),
        ensures
            final(self).parts_ok(),
            old(self)@.receive(*peer, index, begin, block@, response_time) == (final(self)@, r@),
            if old(self)@.pieces[index as int].obtained(begin as int / BLOCK_SIZE as int) {
                *final(progress) == *old(progress)
            } else {
                shows_pieces(old(self)@, *old(progress), *final(progress))
            },
    {
        let ghost before = self@;
        let k = begin / BLOCK_SIZE;
        proof {
            assert(before.piece_ok(index as int));
            assert(before.pieces[index as int] == self.pieces@[index as int]@);
            piece::lemma_offset_block(before.pieces[index as int], begin as int);
        }
        if self.pieces[index].has_obtained(k) {
            return Pending::Nothing;
        }
        let who = self.pieces[index].who_downloading(k);
        let is_downloading = match who {
            Some(who) => who == *peer,
            None => false,
        };
        let ghost f = |c: ConnectionModel|
            c.receive_piece(block@.len(), response_time, who == Some(*peer));
        if let Some(i) = self.find(peer) {
            assert(before.connections[i as int].1 == self.connections@[i as int].1@);
            assert(before.connections[i as int].1.room(block@.len() + 1));
            assert(before.connections[i as int].1.wf(self.metadata.num_pieces as nat));
            self.connections.entries[i].1.receive_piece(block.len(), response_time, is_downloading);
        }
        proof {
            assert(self@.connections =~= model::modified(before.connections, *peer, f));
            assert(self@ =~= before.with_connection(*peer, f));
            laws::lemma_receive_counted_wf(before, *peer, block@.len(), response_time, who == Some(*peer));
        }
        let ghost counted = self@;
        let ghost g = |c: ConnectionModel| c.sub_sent_requests(1);
        if let Some(who) = who {
            if who != *peer {
                if let Some(i) = self.find(&who) {
                    assert(counted.connections[i as int].1 == self.connections@[i as int].1@);
                    self.connections.entries[i].1.sub_sent_requests(1);
                }
                proof {
                    assert(self@.connections =~= model::modified(counted.connections, who, g));
                    assert(self@ =~= counted.with_connection(who, g));
                    laws::lemma_with_connection_wf(counted, who, g);
                }
            }
        }
        let ghost answered = self@;
        self.report_pieces(progress);
        proof {
            assert(answered.pieces == before.pieces);
            assert(answered.bits() == before.bits());
            assert(answered.downloaded() == before.downloaded());
            assert(answered.pieces[index as int] == self.pieces@[index as int]@);
        }
        let ghost bytes = block@;
        let placed = self.pieces[index].place(k, block, true);
        proof {
            let x = before.pieces[index as int].place(k as int, bytes, true).0;
            assert(self@.pieces =~= answered.pieces.update(index as int, x));
            assert(self@ =~= answered.with_piece(index as int, x));
        }
        match placed {
            Some(piece) => Pending::Write { index, piece },
            None => Pending::Nothing,
        }
    }

    /// Takes in a message from a peer. `now` is in milliseconds.
    pub fn handle_event(
        &mut self,
        peer: &PeerId,
        message: Message,
        now: u64,
        progress: &mut Progress,
    ) -> (r: Result<Pending, TransferError>)
        requires
            old(self).wf(),
            old(self)@.room(model::weight(message@)),
        ensures
            final(self).wf(),
            match r {
                Ok(pending) => old(self)@.handle(*peer, message@, now) == Ok::<_, TransferError>(
                    (final(self)@, pending@),
                ),
                Err(e) => final(self)@ == old(self)@ && old(self)@.handle(*peer, message@, now)
                    == Err::<(TransferModel, PendingModel), _>(e),
            },
            if is_news(old(self)@, message@) {
                shows_pieces(old(self)@, *old(progress), *final(progress))
            } else {
                *final(progress) == *old(progress)
            },
    {
        let ghost before = self@;
        let ghost view = message@;
        proof {
            lemma_room_monotone(before, view);
            laws::law_step_wf(before, *peer, view);
        }
        let mut pending = Pending::Nothing;
        match message {
            Message::Bitfield(bitfield) => {
                if let Err(e) = self.on_bitfield(peer, &bitfield) {
                    return Err(e);
                }
            },
            Message::Have { index } => {
                if let Err(e) = self.check_piece_index(index, Op::Have) {
                    return Err(e);
                }
                self.on_have(peer, index);
            },
            Message::Request { index, begin, length } => {
                if let Err(e) = self.check_piece_length(index, begin, length, false, Op::Request) {
                    return Err(e);
                }
                pending = self.on_request(peer, index, begin, length);
            },
            Message::Cancel { index, begin, length } => {
                if let Err(e) = self.check_piece_length(index, begin, length, true, Op::Cancel) {
                    return Err(e);
                }
            },
            Message::Piece { index, begin, piece, response_time } => {
                if let Err(e) = self.check_piece_begin(index, begin, true, Op::Piece) {
                    return Err(e);
                }
                pending = self.on_piece(peer, index, begin, piece, response_time, progress);
            },
            Message::Choked(choked) => {
                self.on_choked(peer, choked);
            },
            Message::Interested(interested) => {
                self.on_interested(peer, interested);
            },
            Message::Reject { index, begin, length } => {
                if let Err(e) = self.check_piece_length(index, begin, length, true, Op::Reject) {
                    return Err(e);
                }
                self.on_reject(peer, index, begin);
            },
            Message::HaveAll => {
                self.on_have_all_or_none(peer, true);
            },
            Message::HaveNone => {
                self.on_have_all_or_none(peer, false);
            },
            _ => {},
        }
        assert(before.step(*peer, view) == Ok::<_, TransferError>((self@, pending@)));
        if matches!(pending, Pending::Nothing) {
            self.dispatch_requests(now);
        }
        Ok(pending)
    }
}

/// Part of a list has a peer no more often than the whole.
proof fn lemma_occurrences_prefix(late: Seq<PeerId>, n: int, peer: PeerId)
    requires
        0 <= n <= late.len(),
    ensures
        piece::occurrences(late.take(n), peer) <= piece::occurrences(late, peer),
    decreases late.len(),
{
    if n < late.len() {
        lemma_occurrences_prefix(late.drop_last(), n, peer);
        assert(late.drop_last().take(n) =~= late.take(n));
    } else {
        assert(late.take(n) =~= late);
    }
}

/// Part of the connections have downloaded and uploaded no more than all.
proof fn lemma_sums_prefix(connections: Seq<(PeerId, ConnectionModel)>, n: int)
    requires
        0 <= n <= connections.len(),
    ensures
        model::sum_downloaded(connections.take(n)) <= model::sum_downloaded(connections),
        model::sum_uploaded(connections.take(n)) <= model::sum_uploaded(connections),
    decreases connections.len(),
{
    if n < connections.len() {
        lemma_sums_prefix(connections.drop_last(), n);
        assert(connections.drop_last().take(n) =~= connections.take(n));
    } else {
        assert(connections.take(n) =~= connections);
    }
}

/// Timeouts and the end of a second change no connection's traffic.
proof fn lemma_expire_keeps_traffic(m: TransferModel, n: nat, now: u64)
    requires
        m.wf(),
        n <= m.pieces.len(),
    ensures
        model::sum_downloaded(m.expire_upto(n, now).connections) == model::sum_downloaded(
            m.connections,
        ),
        model::sum_uploaded(m.expire_upto(n, now).connections) == model::sum_uploaded(m.connections),
    decreases n,
{
    if n > 0 {
        lemma_expire_keeps_traffic(m, (n - 1) as nat, now);
        laws::lemma_expire_wf(m, (n - 1) as nat, now);
        let before = m.expire_upto((n - 1) as nat, now);
        laws::lemma_timed_out(
            before.connections,
            piece::late_peers(before.pieces[n - 1].blocks, now),
        );
        lemma_same_sums(before.connections, m.expire_upto(n, now).connections);
    }
}

proof fn lemma_same_sums(
    a: Seq<(PeerId, ConnectionModel)>,
    b: Seq<(PeerId, ConnectionModel)>,
)
    requires
        a.len() == b.len(),
        forall|i: int|
            0 <= i < a.len() ==> (#[trigger] b[i]).1.downloaded == a[i].1.downloaded
                && b[i].1.uploaded == a[i].1.uploaded,
    ensures
        model::sum_downloaded(a) == model::sum_downloaded(b),
        model::sum_uploaded(a) == model::sum_uploaded(b),
    decreases a.len(),
{
    if a.len() > 0 {
        assert(b.last() == b[a.len() - 1]);
        lemma_same_sums(a.drop_last(), b.drop_last());
    }
}

impl Transfer {
    /// A transfer that starts with the pieces that the saved state marks, or
    /// with none.
    pub fn new(metadata: Metadata, saved: Option<Vec<u8>>) -> (r: Transfer)
        requires
            metadata.wf(),
            saved matches Some(bytes) ==> bytes@.len() == bitfield::bytes_for(
                metadata.num_pieces as int,
            ),
        ensures
            r.wf(),
            r@ == started(
                metadata,
                match saved {
                    Some(bytes) => bytes@,
                    None => Seq::new(
                        bitfield::bytes_for(metadata.num_pieces as int) as nat,
                        |i: int| 0u8,
                    ),
                },
            ),
    {
        let mut piece_bitfield = Bitfield::new(metadata.num_pieces);
        if let Some(bytes) = &saved {
            piece_bitfield.set_bytes(bytes.as_slice());
        }
        let ghost have = piece_bitfield.bytes@;
        let ghost n = metadata.num_pieces as int;
        let ghost bits = bitfield::bits_of(have, n);
        let mut pieces: Vec<Piece> = Vec::new();
        let mut downloaded_pieces: usize = 0;
        let mut p: usize = 0;
        while p < metadata.num_pieces
            invariant
                p <= metadata.num_pieces,
                metadata.wf(),
                n == metadata.num_pieces,
                piece_bitfield.wf(),
                piece_bitfield.length == n,
                piece_bitfield.bytes@ == have,
                bits == bitfield::bits_of(have, n),
                downloaded_pieces <= p,
                downloaded_pieces == bitfield::count_set(bits.take(p as int)),
                pieces@.len() == p,
                forall|q: int| 0 <= q < p ==> (#[trigger] pieces@[q])@ == started(
                    metadata,
                    have,
                ).pieces[q],
            decreases metadata.num_pieces - p,
        {
            assert(bits.take(p as int + 1).drop_last() =~= bits.take(p as int));
            let written = piece_bitfield.has(p);
            if written {
                downloaded_pieces += 1;
            }
            let length = metadata.piece_length(p);
            pieces.push(Piece::new(Some(p), BLOCK_SIZE, length, metadata.pieces[p], written));
            p += 1;
        }
        proof {
            assert(bits.take(n) =~= bits);
            bitfield::lemma_count_set_bound(bits);
            assert(piece_views(pieces@) =~= started(metadata, have).pieces);
            lemma_started_wf(metadata, have);
        }
        let mut r = Transfer {
            metadata,
            pieces,
            piece_bitfield,
            connections: PeerMap::new(),
            piece_cache: PieceCache::new(PIECE_CACHE_CAPACITY),
            downloaded_pieces,
            uploaded: 0,
            announced: tracker::Progress {
                downloaded: 0,
                left: 0,
                uploaded: 0,
                event: tracker::Event::Started,
            },
        };
        proof {
            assert(r@.connections =~= Seq::<(PeerId, ConnectionModel)>::empty());
            let bare = TransferModel { announced: r.announced, ..started(metadata, have) };
            assert(r@ =~= bare);
            assert(bare.bits() == started(metadata, have).bits());
            assert forall|p: int| 0 <= p < n implies bare.piece_ok(p) by {
                assert(started(metadata, have).piece_ok(p));
            }
        }
        let (downloaded, left) = r.downloaded_left();
        r.announced = tracker::Progress {
            downloaded,
            left,
            uploaded: 0,
            event: tracker::Event::Started,
        };
        assert(r@ =~= started(metadata, have));
        r
    }

    /// The state to save: a bit for each written piece.
    pub fn save_state(&self) -> (r: Vec<u8>)
        requires
            self.wf(),
        ensures
            r@.len() == bitfield::bytes_for(self.metadata.num_pieces as int),
            bitfield::bits_of(r@, self.metadata.num_pieces as int) == Seq::new(
                self.metadata.num_pieces as nat,
                |p: int| self@.pieces[p].written,
            ),
    {
        let mut bitfield = Bitfield::new(self.metadata.num_pieces);
        let mut p: usize = 0;
        while p < self.pieces.len()
            invariant
                p <= self.pieces@.len(),
                self.wf(),
                bitfield.wf(),
                bitfield.length == self.metadata.num_pieces,
                forall|q: int|
                    0 <= q < self.pieces@.len() ==> #[trigger] bitfield@[q] == (q < p
                        && self@.pieces[q].written),
            decreases self.pieces@.len() - p,
        {
            assert(self@.pieces[p as int] == self.pieces@[p as int]@);
            if self.pieces[p].is_written() {
                bitfield.set(p);
            }
            p += 1;
        }
        assert(bitfield@ =~= Seq::new(
            self.metadata.num_pieces as nat,
            |p: int| self@.pieces[p].written,
        ));
        bytes::copy_bytes(bitfield.as_bytes())
    }

    /// Takes a new connection in and queues what its peer is told first.
    pub fn add_connection(&mut self, peer: PeerId, supports_fast: bool)
        requires
            old(self).wf(),
        ensures
            final(self).wf(),
            final(self)@ == old(self)@.add_connection(peer, supports_fast),
    {
        let ghost before = self@;
        let mut con = Connection::new(peer, self.metadata.num_pieces, supports_fast);
        if self.downloaded_pieces == 0 && supports_fast {
            con.send(Message::HaveNone);
        } else if self.downloaded_pieces == self.metadata.num_pieces && supports_fast {
            con.send(Message::HaveAll);
        } else if self.downloaded_pieces != 0 {
            con.send(Message::Bitfield(self.piece_bitfield.copy()));
        }
        con.set_am_interested(true);
        proof {
            lemma_view_keys(self.connections@);
            laws::law_add_connection_wf(before, peer, supports_fast);
            assert(con@ == before.greeted(peer, supports_fast));
        }
        let ghost old_entries = self.connections@;
        let ghost new_con = con;
        self.connections.insert(peer, con);
        proof {
            if assoc::has_key(old_entries, peer) {
                let i = assoc::index_of(old_entries, peer);
                assert(assoc::key_at(old_entries, i, peer));
            }
            assert(self@.connections =~= before.add_connection(peer, supports_fast).connections);
            assert(self@ =~= before.add_connection(peer, supports_fast));
        }
    }

    /// Drops the connection to a peer.
    pub fn sever_connection(&mut self, peer: &PeerId, progress: &mut Progress)
        requires
            old(self).wf(),
            old(progress).peers.wf(),
        ensures
            final(self).wf(),
            final(self)@ == old(self)@.sever(*peer),
            *final(progress) == (Progress { peers: final(progress).peers, ..*old(progress) }),
            final(progress).peers@ == if assoc::has_key(old(progress).peers@, *peer) {
                let i = assoc::index_of(old(progress).peers@, *peer);
                old(progress).peers@.update(
                    i,
                    (*peer, PeerProgress { connection: None, ..old(progress).peers@[i].1 }),
                )
            } else {
                old(progress).peers@
            },
    {
        let ghost before = self@;
        self.reset_pieces(peer);
        if let Some(i) = progress.peers.position(peer) {
            progress.peers.entries[i].1.connection = None;
        }
        proof {
            lemma_view_keys(self.connections@);
            laws::law_sever_wf(before, *peer);
        }
        let ghost old_entries = self.connections@;
        self.connections.remove(peer);
        proof {
            if assoc::has_key(old_entries, *peer) {
                let i = assoc::index_of(old_entries, *peer);
                assert(assoc::key_at(old_entries, i, *peer));
            }
            assert(self@.connections =~= before.sever(*peer).connections);
            assert(self@ =~= before.sever(*peer));
        }
    }

    /// Goes on after a piece was read for a request.
    pub fn finish_read(
        &mut self,
        peer: &PeerId,
        index: usize,
        begin: usize,
        length: usize,
        piece: Vec<u8>,
        now: u64,
    )
        requires
            old(self).wf(),
            old(self)@.room(length as nat),
            index < old(self).metadata.num_pieces,
            begin + length <= old(self).metadata.piece_len(index as int),
            piece@.len() == old(self).metadata.piece_len(index as int),
        ensures
            final(self).wf(),
            final(self)@ == old(self)@.finish_read(*peer, index, begin, length, piece@, now),
    {
        let ghost before = self@;
        let ghost whole = piece@;
        proof {
            laws::law_finish_read_wf(before, *peer, index, begin, length, whole, now);
        }
        let block = bytes::copy_range(piece.as_slice(), begin, begin + length);
        self.piece_cache.insert(index, piece);
        let ghost f = |c: ConnectionModel|
            c.send_piece(index, begin, whole.subrange(begin as int, begin + length));
        if let Some(i) = self.find(peer) {
            assert(before.connections[i as int].1 == self.connections@[i as int].1@);
            assert(before.connections[i as int].1.room(length as nat));
            self.connections.entries[i].1.send_piece(index, begin, block);
        }
        assert(self@.connections =~= model::modified(before.connections, *peer, f));
        assert(self@ =~= laws::after_read(before, *peer, index, begin, length, whole));
        self.dispatch_requests(now);
    }

    /// Goes on after a piece was written.
    pub fn finish_write(&mut self, index: usize, now: u64)
        requires
            old(self).wf(),
            index < old(self).metadata.num_pieces,
            !old(self)@.bits()[index as int],
            old(self)@.pieces[index as int].complete(),
            old(self)@.pieces[index as int].written,
        ensures
            final(self).wf(),
            final(self)@ == old(self)@.finish_write(index, now),
    {
        let ghost before = self@;
        proof {
            laws::law_finish_write_wf(before, index, now);
        }
        self.piece_bitfield.set(index);
        self.downloaded_pieces += 1;
        let ghost had = self@;
        let ghost message = MessageModel::Have { index };
        let n = self.connections.entries.len();
        let mut i: usize = 0;
        while i < n
            invariant
                i <= n,
                n == self.connections@.len(),
                n == had.connections.len(),
                self.parts_ok(),
                message == (MessageModel::Have { index }),
                self@ == (TransferModel { connections: self@.connections, ..had }),
                forall|j: int|
                    0 <= j < n ==> #[trigger] self@.connections[j] == if j < i {
                        had.broadcast(message).connections[j]
                    } else {
                        had.connections[j]
                    },
            decreases n - i,
        {
            let ghost earlier = self@;
            assert(self@.connections[i as int] == (
                self.connections@[i as int].0,
                self.connections@[i as int].1@,
            ));
            self.connections.entries[i].1.send(Message::Have { index });
            assert(self@.connections =~= earlier.connections.update(
                i as int,
                had.broadcast(message).connections[i as int],
            ));
            i += 1;
        }
        proof {
            assert(self@.connections =~= had.broadcast(message).connections);
            assert(self@ =~= had.broadcast(message));
            let after = laws::after_write(before, index);
            let told = TransferModel { announced: after.announced, ..self@ };
            assert(told =~= after);
            assert(self@.bits() == after.bits());
            assert forall|p: int| 0 <= p < self.metadata.num_pieces implies self@.piece_ok(p) by {
                assert(after.piece_ok(p));
            }
            assert forall|i: int| 0 <= i < self@.cache.len() implies self@.cached_ok(i) by {
                assert(after.cached_ok(i));
            }
        }
        let (downloaded, left) = self.downloaded_left();
        self.announced = tracker::Progress {
            downloaded,
            left,
            uploaded: self.uploaded,
            event: tracker::Event::Started,
        };
        assert(self@ =~= laws::after_write(before, index));
        self.dispatch_requests(now);
    }

    /// Counts a timeout for each late peer.
    fn count_timeouts(&mut self, late: &Vec<PeerId>)
        requires
            assoc::distinct_keys(old(self)@.connections),
            old(self).parts_ok(),
            forall|i: int|
                0 <= i < old(self)@.connections.len() ==> (
                #[trigger] old(self)@.connections[i]).1.timeouts + piece::occurrences(
                    late@,
                    old(self)@.connections[i].0,
                ) <= usize::MAX,
        ensures
            final(self).parts_ok(),
            final(self)@ == (TransferModel {
                connections: model::timed_out(old(self)@.connections, late@),
                ..old(self)@
            }),
    {
        let ghost start = self@;
        let mut j: usize = 0;
        assert(model::timed_out(start.connections, late@.take(0)) == start.connections);
        while j < late.len()
            invariant
                j <= late@.len(),
                assoc::distinct_keys(start.connections),
                self.parts_ok(),
                forall|i: int|
                    0 <= i < start.connections.len() ==> (
                    #[trigger] start.connections[i]).1.timeouts + piece::occurrences(
                        late@,
                        start.connections[i].0,
                    ) <= usize::MAX,
                self@ == (TransferModel {
                    connections: model::timed_out(start.connections, late@.take(j as int)),
                    ..start
                }),
            decreases late@.len() - j,
        {
            let ghost before = self@;
            let peer = late[j];
            let ghost f = |c: ConnectionModel| c.timeout(1);
            let ghost seen = late@.take(j as int + 1);
            proof {
                laws::lemma_timed_out(start.connections, late@.take(j as int));
                laws::lemma_timed_out(start.connections, seen);
                assert(seen.drop_last() =~= late@.take(j as int));
                assert(seen.last() == peer);
            }
            if let Some(i) = self.find(&peer) {
                proof {
                    assert(before.connections[i as int].1 == self.connections@[i as int].1@);
                    assert(before.connections[i as int].0 == peer);
                    assert(start.connections[i as int].0 == peer);
                    lemma_occurrences_prefix(late@, j as int + 1, peer);
                }
                self.connections.entries[i].1.timeout(1);
            }
            assert(self@.connections =~= model::modified(before.connections, peer, f));
            j += 1;
        }
        assert(late@.take(j as int) =~= late@);
    }

    /// Gives up late requests and counts them.
    fn expire(&mut self, now: u64)
        requires
            old(self).wf(),
            old(self)@.room_for_tick(),
        ensures
            final(self).wf(),
            final(self)@ == old(self)@.expire_upto(old(self)@.pieces.len(), now),
    {
        let ghost start = self@;
        let n = self.pieces.len();
        let mut p: usize = 0;
        while p < n
            invariant
                p <= n,
                n == self.pieces@.len(),
                n == start.pieces.len(),
                start.wf(),
                self.wf(),
                self@ == start.expire_upto(p as nat, now),
                forall|i: int|
                    0 <= i < self@.connections.len() ==> (
                    #[trigger] self@.connections[i]).1.timeouts + model::total_asked(
                        self@.pieces,
                        self@.connections[i].0,
                    ) <= usize::MAX,
            decreases n - p,
        {
            let ghost before = self@;
            let ghost at = before.pieces[p as int];
            proof {
                assert(before.piece_ok(p as int));
                assert(at == self.pieces@[p as int]@);
                laws::lemma_expire_wf(start, p as nat + 1, now);
            }
            let late = self.pieces[p].check_timeout(now);
            let ghost after = start.expire_upto(p as nat + 1, now);
            proof {
                assert(self@.pieces =~= after.pieces);
                assert(self@ =~= (TransferModel { pieces: after.pieces, ..before }));
                assert forall|i: int| 0 <= i < before.connections.len() implies (
                #[trigger] before.connections[i]).1.timeouts + piece::occurrences(
                    late@,
                    before.connections[i].0,
                ) <= usize::MAX && before.connections[i].1.timeouts + piece::occurrences(
                    late@,
                    before.connections[i].0,
                ) + model::total_asked(after.pieces, before.connections[i].0) <= usize::MAX by {
                    let q = before.connections[i].0;
                    piece::lemma_count_expire(at, now, q);
                    laws::lemma_total_update(before.pieces, p as int, at.expire(now), q);
                }
            }
            self.count_timeouts(&late);
            proof {
                laws::lemma_timed_out(before.connections, late@);
                assert(self@ =~= after);
                assert forall|i: int| 0 <= i < self@.connections.len() implies (
                #[trigger] self@.connections[i]).1.timeouts + model::total_asked(
                    self@.pieces,
                    self@.connections[i].0,
                ) <= usize::MAX by {
                    assert(before.connections[i].1.timeouts + piece::occurrences(
                        late@,
                        before.connections[i].0,
                    ) + model::total_asked(after.pieces, before.connections[i].0) <= usize::MAX);
                }
            }
            p += 1;
        }
    }

    /// A torrent's files as they are shown.
    fn shown_files(&self) -> (r: Vec<FileInfo>)
        ensures
            file_views(r@) == shown_files(self.metadata.files@),
    {
        let mut r: Vec<FileInfo> = Vec::new();
        let mut i: usize = 0;
        proof {
            reveal_strlit("/");
            assert("/"@ =~= seq!['/']);
        }
        while i < self.metadata.files.len()
            invariant
                i <= self.metadata.files@.len(),
                "/"@ == seq!['/'],
                r@.len() == i,
                forall|j: int|
                    0 <= j < i ==> (#[trigger] r@[j])@ == shown_files(self.metadata.files@)[j],
            decreases self.metadata.files@.len() - i,
        {
            let file = &self.metadata.files[i];
            let from: usize = if file.path.len() == 0 {
                0
            } else {
                1
            };
            r.push(
                FileInfo {
                    relative_path: text::join_from(&file.path, from, "/"),
                    size: file.length,
                },
            );
            i += 1;
        }
        assert(file_views(r@) =~= shown_files(self.metadata.files@));
        r
    }

    /// Shows what each connection did this second.
    fn report_connections(&self, progress: &mut Progress)
        requires
            self.wf(),
        ensures
            *final(progress) == (Progress { peers: final(progress).peers, ..*old(progress) }),
            shows_connections(self@, old(progress).peers@, final(progress).peers@),
    {
        let n = progress.peers.entries.len();
        let ghost before = progress.peers@;
        let mut k: usize = 0;
        while k < n
            invariant
                k <= n,
                n == before.len(),
                n == progress.peers@.len(),
                self.wf(),
                before == old(progress).peers@,
                *progress == (Progress { peers: progress.peers, ..*old(progress) }),
                forall|j: int|
                    k <= j < n ==> #[trigger] progress.peers@[j] == before[j],
                shows_connections(self@, before.take(k as int), progress.peers@.take(k as int)),
            decreases n - k,
        {
            let ghost earlier = progress.peers@;
            let id = progress.peers.entries[k].0;
            if let Some(i) = self.find(&id) {
                let con = &self.connections.entries[i].1;
                assert(self@.connections[i as int].1 == con@);
                let shown = ConnectionProgress {
                    down_speed: con.downloaded_this_second,
                    up_speed: con.uploaded_this_second,
                    piece_bitfield: con.piece_bitfield.copy(),
                    am_choking: con.am_choking,
                    am_interested: con.am_interested,
                    peer_choking: con.peer_choking,
                    peer_interested: con.peer_interested,
                    pipeline: con.max_requests,
                    piece_cursor: con.piece_cursor,
                    timeout_rate: con.timeouts_this_second,
                    reject_rate: con.rejects_this_second,
                };
                assert(shown@ =~= model::connection_view(con@));
                progress.peers.entries[k].1.connection = Some(shown);
            }
            proof {
                let b = before.take(k as int + 1);
                let a = progress.peers@.take(k as int + 1);
                assert forall|j: int| 0 <= j < b.len() implies {
                    let (id, pb) = b[j];
                    let (id2, pa) = #[trigger] a[j];
                    &&& id2 == id
                    &&& if assoc::has_key(self@.connections, id) {
                        &&& pa == (PeerProgress { connection: pa.connection, ..pb })
                        &&& pa.connection matches Some(c)
                        &&& c@ == model::connection_view(
                            self@.connections[assoc::index_of(self@.connections, id)].1,
                        )
                        &&& c.piece_bitfield.wf()
                    } else {
                        pa == pb
                    }
                } by {
                    if j < k {
                        assert(a[j] == earlier.take(k as int)[j]);
                        assert(b[j] == before.take(k as int)[j]);
                    }
                }
            }
            k += 1;
        }
        assert(before.take(n as int) =~= before);
        assert(progress.peers@.take(n as int) =~= progress.peers@);
    }

    /// What each connection did this second.
    pub fn reports(&self) -> (r: Vec<Report>)
        ensures
            connection::reported(r@, self@.connections),
    {
        let mut r: Vec<Report> = Vec::new();
        let mut i: usize = 0;
        while i < self.connections.entries.len()
            invariant
                i <= self.connections@.len(),
                r@.len() == i,
                forall|j: int| 0 <= j < i ==> (#[trigger] r@[j]).is_of(self@.connections[j]),
            decreases self.connections@.len() - i,
        {
            let (peer, con) = &self.connections.entries[i];
            assert(self@.connections[i as int] == (*peer, con@));
            r.push(
                Report {
                    peer: *peer,
                    sent_requests: con.sent_requests,
                    response_times_sum: con.response_times_sum,
                    num_response_times: con.num_response_times,
                    chokes: con.chokes_this_second,
                    rejects: con.rejects_this_second,
                },
            );
            i += 1;
        }
        r
    }

    /// Ends a second: shows it and starts the counters over.
    fn statistics(&mut self, progress: &mut Progress)
        requires
            old(self).wf(),
            model::sum_downloaded(old(self)@.connections) <= usize::MAX,
            old(self)@.uploaded + model::sum_uploaded(old(self)@.connections) <= usize::MAX,
        ensures
            final(self).wf(),
            final(self)@ == old(self)@.statistics(),
            *final(progress) == (Progress {
                peers: final(progress).peers,
                transfer: final(progress).transfer,
                ..*old(progress)
            }),
            shows_connections(old(self)@, old(progress).peers@, final(progress).peers@),
            final(progress).transfer matches Some(t) && shows_speeds(
                old(self)@,
                old(progress).transfer,
                t,
            ),
    {
        let ghost before = self@;
        self.report_connections(progress);
        let mut downloaded_this_second: usize = 0;
        let mut uploaded_this_second: usize = 0;
        let n = self.connections.entries.len();
        let mut i: usize = 0;
        while i < n
            invariant
                i <= n,
                n == self.connections@.len(),
                n == before.connections.len(),
                before.wf(),
                self.parts_ok(),
                model::sum_downloaded(before.connections) <= usize::MAX,
                before.uploaded + model::sum_uploaded(before.connections) <= usize::MAX,
                self@ == (TransferModel { connections: self@.connections, ..before }),
                downloaded_this_second == model::sum_downloaded(before.connections.take(i as int)),
                uploaded_this_second == model::sum_uploaded(before.connections.take(i as int)),
                forall|j: int|
                    0 <= j < n ==> #[trigger] self@.connections[j] == if j < i {
                        before.statistics().connections[j]
                    } else {
                        before.connections[j]
                    },
            decreases n - i,
        {
            let ghost earlier = self@;
            proof {
                assert(self@.connections[i as int] == (
                    self.connections@[i as int].0,
                    self.connections@[i as int].1@,
                ));
                assert(before.connections[i as int].1.wf(before.metadata.num_pieces as nat));
                let seen = before.connections.take(i as int + 1);
                assert(seen.drop_last() =~= before.connections.take(i as int));
                lemma_sums_prefix(before.connections, i as int + 1);
            }
            downloaded_this_second += self.connections.entries[i].1.downloaded_this_second;
            uploaded_this_second += self.connections.entries[i].1.uploaded_this_second;
            self.connections.entries[i].1.reset_stats();
            assert(self@.connections =~= earlier.connections.update(
                i as int,
                before.statistics().connections[i as int],
            ));
            i += 1;
        }
        assert(before.connections.take(n as int) =~= before.connections);
        self.uploaded += uploaded_this_second;
        proof {
            assert(self@.connections =~= before.statistics().connections);
            assert(self@ =~= before.statistics());
            laws::lemma_statistics_wf(before);
        }
        if progress.transfer.is_none() {
            let (downloaded, _) = self.downloaded_left();
            progress.transfer = Some(
                TransferProgress {
                    files: self.shown_files(),
                    size: self.metadata.length,
                    down_speed: 0,
                    up_speed: 0,
                    downloaded,
                    uploaded: 0,
                    piece_bitfield: self.piece_bitfield.copy(),
                    active_pieces: Vec::new(),
                    percentage: String::new(),
                },
            );
        }
        let transfer = &mut progress.transfer;
        if let Some(t) = transfer {
            t.down_speed = downloaded_this_second;
            t.up_speed = uploaded_this_second;
            t.uploaded = self.uploaded;
        }
    }

    /// Whether the counters can take a tick.
    pub fn has_room_for_tick(&self) -> (r: bool)
        ensures
            r == self@.room_for_tick(),
    {
        let mut downloaded: usize = 0;
        let mut uploaded: usize = self.uploaded;
        let mut i: usize = 0;
        while i < self.connections.entries.len()
            invariant
                i <= self.connections@.len(),
                downloaded == model::sum_downloaded(self@.connections.take(i as int)),
                uploaded == self@.uploaded + model::sum_uploaded(self@.connections.take(i as int)),
                forall|j: int|
                    0 <= j < i ==> (#[trigger] self@.connections[j]).1.timeouts
                        + model::total_asked(self@.pieces, self@.connections[j].0) <= usize::MAX,
            decreases self.connections@.len() - i,
        {
            proof {
                assert(self@.connections[i as int] == (
                    self.connections@[i as int].0,
                    self.connections@[i as int].1@,
                ));
                let seen = self@.connections.take(i as int + 1);
                assert(seen.drop_last() =~= self@.connections.take(i as int));
                lemma_sums_prefix(self@.connections, i as int + 1);
            }
            let con = &self.connections.entries[i].1;
            let peer = self.connections.entries[i].0;
            match self.total_asked(&peer) {
                Some(total) => {
                    if con.timeouts_this_second > usize::MAX - total {
                        return false;
                    }
                },
                None => {
                    return false;
                },
            }
            if con.downloaded_this_second > usize::MAX - downloaded {
                return false;
            }
            if con.uploaded_this_second > usize::MAX - uploaded {
                return false;
            }
            downloaded += con.downloaded_this_second;
            uploaded += con.uploaded_this_second;
            i += 1;
        }
        assert(self@.connections.take(i as int) =~= self@.connections);
        true
    }

    /// What happens once a second; gives what each connection did in it. `now` is
    /// in milliseconds.
    pub fn tick(&mut self, now: u64, progress: &mut Progress) -> (r: Vec<Report>)
        requires
            old(self).wf(),
            old(self)@.room_for_tick(),
        ensures
            final(self).wf(),
            final(self)@ == old(self)@.tick(now),
            *final(progress) == (Progress {
                peers: final(progress).peers,
                transfer: final(progress).transfer,
                ..*old(progress)
            }),
            ({
                let expired = old(self)@.expire_upto(old(self)@.pieces.len(), now);
                &&& connection::reported(r@, expired.connections)
                &&& shows_connections(expired, old(progress).peers@, final(progress).peers@)
                &&& final(progress).transfer matches Some(t) && shows_speeds(
                    expired,
                    old(progress).transfer,
                    t,
                )
            }),
    {
        proof {
            lemma_expire_keeps_traffic(self@, self@.pieces.len(), now);
            laws::lemma_expire_wf(self@, self@.pieces.len(), now);
        }
        self.expire(now);
        let reports = self.reports();
        self.statistics(progress);
        self.dispatch_requests(now);
        reports
    }

    /// Where a piece lies on disk.
    pub fn disk_runs(&self, index: usize) -> (r: Vec<DiskRun>)
        requires
            self.wf(),
            index < self.metadata.num_pieces,
        ensures
            r@.len() == self.metadata.piece_files@[index as int]@.len(),
            forall|i: int|
                0 <= i < r@.len() ==> {
                    let run = self.metadata.piece_files@[index as int]@[i];
                    let file = self.metadata.files@[run.file_index as int];
                    let d = #[trigger] r@[i];
                    &&& text::texts(d.path@) == text::texts(file.path@)
                    &&& d.file_length == file.length
                    &&& d.file_offset == run.file_offset
                    &&& d.piece_offset == run.piece_offset
                    &&& d.length == run.length
                    &&& d.piece_offset + d.length <= self.metadata.piece_len(index as int)
                    &&& d.file_offset + d.length <= d.file_length
                },
    {
        let mut r: Vec<DiskRun> = Vec::new();
        let runs = &self.metadata.piece_files[index];
        let mut i: usize = 0;
        while i < runs.len()
            invariant
                i <= runs@.len(),
                self.wf(),
                index < self.metadata.num_pieces,
                runs@ == self.metadata.piece_files@[index as int]@,
                r@.len() == i,
                forall|i: int|
                    0 <= i < r@.len() ==> {
                        let run = runs@[i];
                        let file = self.metadata.files@[run.file_index as int];
                        let d = #[trigger] r@[i];
                        &&& text::texts(d.path@) == text::texts(file.path@)
                        &&& d.file_length == file.length
                        &&& d.file_offset == run.file_offset
                        &&& d.piece_offset == run.piece_offset
                        &&& d.length == run.length
                        &&& d.piece_offset + d.length <= self.metadata.piece_len(index as int)
                        &&& d.file_offset + d.length <= d.file_length
                    },
            decreases runs@.len() - i,
        {
            assert(self.metadata.tiled(index as int));
            let run = runs[i];
            let file = &self.metadata.files[run.file_index];
            r.push(
                DiskRun {
                    path: text::copy_strings(&file.path),
                    file_length: file.length,
                    file_offset: run.file_offset,
                    piece_offset: run.piece_offset,
                    length: run.length,
                },
            );
            i += 1;
        }
        r
    }

    /// Takes out what is queued for each peer.
    pub fn take_outboxes(&mut self) -> (r: Vec<(PeerId, Vec<Message>)>)
        requires
            old(self).wf(),
        ensures
            final(self).wf(),
            final(self)@ == (TransferModel {
                connections: Seq::new(
                    old(self)@.connections.len(),
                    |i: int|
                        (
                            old(self)@.connections[i].0,
                            ConnectionModel { outbox: Seq::empty(), ..old(self)@.connections[i].1 },
                        ),
                ),
                ..old(self)@
            }),
            r@.len() == old(self)@.connections.len(),
            forall|i: int|
                0 <= i < r@.len() ==> (#[trigger] r@[i]).0 == old(self)@.connections[i].0
                    && connection::message_views(r@[i].1@) == old(self)@.connections[i].1.outbox,
    {
        let ghost before = self@;
        let ghost emptied = Seq::new(
            before.connections.len(),
            |i: int|
                (
                    before.connections[i].0,
                    ConnectionModel { outbox: Seq::empty(), ..before.connections[i].1 },
                ),
        );
        let mut r: Vec<(PeerId, Vec<Message>)> = Vec::new();
        let n = self.connections.entries.len();
        let mut i: usize = 0;
        while i < n
            invariant
                i <= n,
                n == self.connections@.len(),
                n == before.connections.len(),
                n == emptied.len(),
                self.parts_ok(),
                r@.len() == i,
                emptied == Seq::new(
                    before.connections.len(),
                    |i: int|
                        (
                            before.connections[i].0,
                            ConnectionModel { outbox: Seq::empty(), ..before.connections[i].1 },
                        ),
                ),
                self@ == (TransferModel { connections: self@.connections, ..before }),
                forall|j: int|
                    0 <= j < n ==> #[trigger] self@.connections[j] == if j < i {
                        emptied[j]
                    } else {
                        before.connections[j]
                    },
                forall|j: int|
                    0 <= j < i ==> (#[trigger] r@[j]).0 == before.connections[j].0
                        && connection::message_views(r@[j].1@) == before.connections[j].1.outbox,
            decreases n - i,
        {
            let ghost earlier = self@;
            assert(self@.connections[i as int] == (
                self.connections@[i as int].0,
                self.connections@[i as int].1@,
            ));
            let peer = self.connections.entries[i].0;
            let messages = self.connections.entries[i].1.take_outbox();
            assert(self@.connections =~= earlier.connections.update(i as int, emptied[i as int]));
            r.push((peer, messages));
            i += 1;
        }
        proof {
            assert(self@.connections =~= emptied);
            laws::lemma_same_keys(before.connections, emptied);
            assert(self@.bits() == before.bits());
            assert forall|p: int| 0 <= p < self.metadata.num_pieces implies self@.piece_ok(p) by {
                assert(before.piece_ok(p));
            }
            assert forall|i: int| 0 <= i < self@.cache.len() implies self@.cached_ok(i) by {
                assert(before.cached_ok(i));
            }
            assert forall|i: int| 0 <= i < self@.connections.len() implies (
            #[trigger] self@.connections[i]).1.wf(self.metadata.num_pieces as nat)
                && self@.connections[i].1.id == self@.connections[i].0 by {
                assert(before.connections[i].1.wf(self.metadata.num_pieces as nat));
            }
        }
        r
    }
}

/// A transfer that starts is in order.
proof fn lemma_started_wf(metadata: Metadata, have: Seq<u8>)
    requires
        metadata.wf(),
        have.len() == bitfield::bytes_for(metadata.num_pieces as int),
    ensures
        started(metadata, have).wf(),
{
    let m = started(metadata, have);
    assert forall|p: int| 0 <= p < metadata.num_pieces implies m.piece_ok(p) by {
        metainfo::lemma_piece_bounds(metadata, p);
    }
}

/// Saving a transfer and starting another from what was saved leads to one that
/// has every piece that the first had, and otherwise the ones that it wrote.
pub proof fn law_save_load(m: TransferModel, saved: Seq<u8>)
    requires
        m.wf(),
        saved.len() == bitfield::bytes_for(m.metadata.num_pieces as int),
        bitfield::bits_of(saved, m.metadata.num_pieces as int) == Seq::new(
            m.metadata.num_pieces as nat,
            |p: int| m.pieces[p].written,
        ),
    ensures
        started(m.metadata, saved).wf(),
        forall|p: int|
            0 <= p < m.metadata.num_pieces ==> #[trigger] started(m.metadata, saved).bits()[p]
                == m.pieces[p].written,
        forall|p: int|
            0 <= p < m.metadata.num_pieces && #[trigger] m.bits()[p] ==> started(
                m.metadata,
                saved,
            ).bits()[p],
{
    lemma_started_wf(m.metadata, saved);
    let next = started(m.metadata, saved);
    assert forall|p: int| 0 <= p < m.metadata.num_pieces implies #[trigger] next.bits()[p]
        == m.pieces[p].written by {
        assert(bitfield::bits_of(saved, m.metadata.num_pieces as int)[p] == m.pieces[p].written);
    }
    assert forall|p: int|
        0 <= p < m.metadata.num_pieces && #[trigger] m.bits()[p] implies next.bits()[p] by {
        assert(m.piece_ok(p));
    }
}

/// A transfer starts with its books balanced.
pub proof fn law_started_balanced(metadata: Metadata, have: Seq<u8>)
    requires
        metadata.wf(),
        have.len() == bitfield::bytes_for(metadata.num_pieces as int),
    ensures
        started(metadata, have).balanced(),
{
    let m = started(metadata, have);
    assert forall|peer: PeerId| #[trigger] m.balanced_for(peer) by {
        lemma_nothing_asked(m.pieces, peer);
        assert(!assoc::has_key(m.connections, peer)) by {
            assert forall|i: int| !assoc::key_at(m.connections, i, peer) by {}
        }
    }
}

/// Where no block is asked of a peer, its total is zero.
proof fn lemma_nothing_asked(pieces: Seq<PieceModel>, peer: PeerId)
    requires
        forall|p: int, k: int|
            0 <= p < pieces.len() && 0 <= k < pieces[p].blocks.len() ==> !piece::asked_of(
                #[trigger] pieces[p].blocks[k],
                peer,
            ),
    ensures
        model::total_asked(pieces, peer) == 0,
    decreases pieces.len(),
{
    if pieces.len() > 0 {
        let rest = pieces.drop_last();
        assert forall|p: int, k: int|
            0 <= p < rest.len() && 0 <= k < rest[p].blocks.len() implies !piece::asked_of(
            #[trigger] rest[p].blocks[k],
            peer,
        ) by {
            assert(rest[p].blocks[k] == pieces[p].blocks[k]);
        }
        lemma_nothing_asked(rest, peer);
        let last = pieces.len() - 1;
        assert(pieces.last() == pieces[last]);
        piece::lemma_count_zero(pieces[last].blocks, peer);
    }
}

/// Balanced books of the connected peers are what the accounting check looks
/// for, no more and no less.
pub proof fn law_balanced_passes_check(m: TransferModel)
    requires
        m.wf(),
    ensures
        m.connections_balanced() <==> forall|i: int|
            0 <= i < m.connections.len() ==> (#[trigger] m.connections[i]).1.sent_requests
                == model::total_asked(m.pieces, m.connections[i].0),
        m.balanced() ==> m.connections_balanced(),
{
    assert forall|i: int| 0 <= i < m.connections.len() implies assoc::has_key(
        m.connections,
        (#[trigger] m.connections[i]).0,
    ) && assoc::index_of(m.connections, m.connections[i].0) == i by {
        let peer = m.connections[i].0;
        assert(assoc::key_at(m.connections, i, peer));
        assoc::lemma_index_unique(m.connections, i, peer);
    }
    if forall|i: int|
        0 <= i < m.connections.len() ==> (#[trigger] m.connections[i]).1.sent_requests
            == model::total_asked(m.pieces, m.connections[i].0) {
        assert forall|peer: PeerId| #[trigger]
            assoc::has_key(m.connections, peer) implies m.balanced_for(peer) by {
            let i = assoc::index_of(m.connections, peer);
            assert(assoc::key_at(m.connections, i, peer));
            assert(m.connections[i].0 == peer);
        }
    }
}

/// Counters that can take much can take little.
proof fn lemma_room_monotone(m: TransferModel, message: MessageModel)
    requires
        m.room(model::weight(message)),
    ensures
        m.room(1),
{
    assert forall|i: int| 0 <= i < m.connections.len() implies (
    #[trigger] m.connections[i]).1.room(1) by {
        assert(m.connections[i].1.room(model::weight(message)));
    }
}

/// A part of the pieces has no more asked of a peer than all of them.
proof fn lemma_total_prefix(pieces: Seq<PieceModel>, n: int, peer: PeerId)
    requires
        0 <= n <= pieces.len(),
    ensures
        model::total_asked(pieces.take(n), peer) <= model::total_asked(pieces, peer),
    decreases pieces.len(),
{
    if n < pieces.len() {
        lemma_total_prefix(pieces.drop_last(), n, peer);
        assert(pieces.drop_last().take(n) =~= pieces.take(n));
    } else {
        assert(pieces.take(n) =~= pieces);
    }
}

/// What the message that an error is about is called.
pub open spec fn op_name(op: Op) -> Seq<char> {
    match op {
        Op::Have => "have"@,
        Op::Request => "request"@,
        Op::Cancel => "cancel"@,
        Op::Piece => "piece"@,
        Op::Reject => "reject"@,
    }
}

/// Why a message is refused, as text.
pub open spec fn error_text(e: TransferError) -> Seq<char> {
    match e {
        TransferError::PieceIndex { op, index } => "The index of "@ + op_name(op)
            + " leads outside the number of pieces, got "@ + number::decimal(index as nat),
        TransferError::Boundary { op, begin } => "Begin of "@ + op_name(op)
            + " is not at block boundary, got "@ + number::decimal(begin as nat),
        TransferError::Begin { op, index, piece_length, begin } => "Begin of "@ + op_name(op)
            + " is past piece "@ + number::decimal(index as nat) + " of length "@
            + number::decimal(piece_length as nat) + ", got "@ + number::decimal(begin as nat),
        TransferError::BlockLength { length } => "Length does not match block, got "@
            + number::decimal(length as nat),
        TransferError::Length { op, index, piece_length, begin, length } => "Length of "@
            + op_name(op) + " is past piece "@ + number::decimal(index as nat) + " of length "@
            + number::decimal(piece_length as nat) + ", got "@ + number::decimal(begin as nat)
            + " + "@ + number::decimal(length as nat),
        TransferError::BitfieldSize { expected, got } => "The received bitfield should be "@
            + number::decimal(expected as nat) + " bytes long, got "@ + number::decimal(
            got as nat,
        ),
    }
}

/// Appends what the message that an error is about is called.
fn push_op(out: &mut String, op: Op)
    ensures
        final(out)@ == old(out)@ + op_name(op),
{
    match op {
        Op::Have => out.append("have"),
        Op::Request => out.append("request"),
        Op::Cancel => out.append("cancel"),
        Op::Piece => out.append("piece"),
        Op::Reject => out.append("reject"),
    }
}

impl TransferError {
    /// Why a message is refused, as text.
    pub fn to_text(&self) -> (r: String)
        ensures
            r@ == error_text(*self),
    {
        match *self {
            TransferError::PieceIndex { op, index } => {
                let mut r = "The index of ".to_owned();
                push_op(&mut r, op);
                r.append(" leads outside the number of pieces, got ");
                number::push_decimal(&mut r, index as u64);
                r
            },
            TransferError::Boundary { op, begin } => {
                let mut r = "Begin of ".to_owned();
                push_op(&mut r, op);
                r.append(" is not at block boundary, got ");
                number::push_decimal(&mut r, begin as u64);
                r
            },
            TransferError::Begin { op, index, piece_length, begin } => {
                let mut r = "Begin of ".to_owned();
                push_op(&mut r, op);
                r.append(" is past piece ");
                number::push_decimal(&mut r, index as u64);
                r.append(" of length ");
                number::push_decimal(&mut r, piece_length as u64);
                r.append(", got ");
                number::push_decimal(&mut r, begin as u64);
                r
            },
            TransferError::BlockLength { length } => {
                let mut r = "Length does not match block, got ".to_owned();
                number::push_decimal(&mut r, length as u64);
                r
            },
            TransferError::Length { op, index, piece_length, begin, length } => {
                let mut r = "Length of ".to_owned();
                push_op(&mut r, op);
                r.append(" is past piece ");
                number::push_decimal(&mut r, index as u64);
                r.append(" of length ");
                number::push_decimal(&mut r, piece_length as u64);
                r.append(", got ");
                number::push_decimal(&mut r, begin as u64);
                r.append(" + ");
                number::push_decimal(&mut r, length as u64);
                r
            },
            TransferError::BitfieldSize { expected, got } => {
                let mut r = "The received bitfield should be ".to_owned();
                number::push_decimal(&mut r, expected as u64);
                r.append(" bytes long, got ");
                number::push_decimal(&mut r, got as u64);
                r
            },
        }
    }
}

} // verus!
