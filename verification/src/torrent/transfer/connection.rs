//! The transfer side of a connection to one peer.

use crate::bitfield;
use crate::bitfield::Bitfield;
use crate::proto::bit_torrent::{Message, MessageModel};
use crate::types::PeerId;
use vstd::prelude::*;

verus! {

/// How much a peer may be sent in a second, in bytes.
pub const UPLOAD_LIMIT: usize = 32_768;

/// How many requests may be out at first.
pub const DEFAULT_MAX_REQUESTS: usize = 2;

/// The fewest requests that may be out.
pub const MIN_MAX_REQUESTS: usize = 1;

/// The most requests that may be out.
pub const MAX_MAX_REQUESTS: usize = 200;

/// How fast that number grows.
pub const MAX_REQUESTS_STEP: usize = 2;

/// Where the running average of timeouts per second stands: at zero, between
/// zero and one, or at one and above.
///
/// The average rises by two fifths of the way to a larger count and drops to a
/// smaller one at once. That makes the three bands a state machine of their own.
#[derive(Clone, Copy, Debug, PartialEq, Eq, Structural)]
pub enum Congestion {
    Calm,
    Mild,
    Heavy,
}

impl Congestion {
    /// The band after a second with `timeouts` timeouts.
    pub open spec fn after(self, timeouts: nat) -> Congestion {
        if timeouts == 0 {
            Congestion::Calm
        } else {
            match self {
                Congestion::Calm => if timeouts <= 2 {
                    Congestion::Mild
                } else {
                    Congestion::Heavy
                },
                Congestion::Mild => if timeouts == 1 {
                    Congestion::Mild
                } else {
                    Congestion::Heavy
                },
                Congestion::Heavy => Congestion::Heavy,
            }
        }
    }

    /// The band after a second with `timeouts` timeouts.
    pub fn next(self, timeouts: usize) -> (r: Congestion)
        ensures
            r == self.after(timeouts as nat),
    {
        if timeouts == 0 {
            return Congestion::Calm;
        }
        match self {
            Congestion::Calm => if timeouts <= 2 {
                Congestion::Mild
            } else {
                Congestion::Heavy
            },
            Congestion::Mild => if timeouts == 1 {
                Congestion::Mild
            } else {
                Congestion::Heavy
            },
            Congestion::Heavy => Congestion::Heavy,
        }
    }
}

/// A running average of timeouts per second, as a fraction.
pub struct Average {
    pub num: int,
    pub den: int,
}

impl Average {
    /// The fraction is one that the average can reach: zero, or two fifths and
    /// above.
    pub open spec fn reachable(self) -> bool {
        &&& self.den > 0
        &&& self.num == 0 || 5 * self.num >= 2 * self.den
    }

    /// The average after a second with `timeouts` timeouts: two fifths of a
    /// larger count and three fifths of the average, or the count itself.
    pub open spec fn after(self, timeouts: nat) -> Average {
        if timeouts * self.den > self.num {
            Average { num: 2 * timeouts * self.den + 3 * self.num, den: 5 * self.den }
        } else {
            Average { num: timeouts as int, den: 1 }
        }
    }

    /// Where the average stands.
    pub open spec fn band(self) -> Congestion {
        if self.num == 0 {
            Congestion::Calm
        } else if self.num < self.den {
            Congestion::Mild
        } else {
            Congestion::Heavy
        }
    }
}

/// The bands follow the average: a second's timeouts lead from the band of the
/// average before to the band of the average after, and the average stays among
/// the values that it can reach.
pub proof fn law_congestion_follows_average(average: Average, timeouts: nat)
    requires
        average.reachable(),
    ensures
        average.after(timeouts).reachable(),
        average.after(timeouts).band() == average.band().after(timeouts),
{
    let n = average.num;
    let d = average.den;
    let t = timeouts as int;
    assert(t == 0 ==> t * d == 0) by (nonlinear_arith);
    assert(t == 1 ==> t * d == d) by (nonlinear_arith);
    assert(t == 2 ==> t * d == 2 * d) by (nonlinear_arith);
    assert(t >= 3 ==> t * d >= 3 * d) by (nonlinear_arith)
        requires
            d > 0,
    ;
    assert(2 * t * d == 2 * (t * d)) by (nonlinear_arith);
}

/// The transfer side of a connection. Messages for the peer collect in the
/// outbox until they are sent. The counters of a second start over with
/// [`Connection::reset_stats`]. Response times are in nanoseconds.
#[derive(Debug)]
pub struct Connection {
    pub id: PeerId,
    pub supports_fast: bool,
    pub piece_cursor: Option<usize>,
    pub outbox: Vec<Message>,
    pub sent_requests: usize,
    pub max_requests: usize,
    pub am_choking: bool,
    pub am_interested: bool,
    pub peer_choking: bool,
    pub peer_interested: bool,
    pub piece_bitfield: Bitfield,
    pub uploaded_this_second: usize,
    pub downloaded_this_second: usize,
    pub response_times_sum: u128,
    pub num_response_times: usize,
    pub chokes_this_second: usize,
    pub rejects_this_second: usize,
    pub timeouts_this_second: usize,
    pub congestion: Congestion,
}

/// The contents of a list of messages.
pub open spec fn message_views(s: Seq<Message>) -> Seq<MessageModel> {
    s.map_values(|m: Message| m@)
}

/// A connection's contents.
#[verifier::ext_equal]
pub struct ConnectionModel {
    pub id: PeerId,
    pub supports_fast: bool,
    pub piece_cursor: Option<usize>,
    pub outbox: Seq<MessageModel>,
    pub sent_requests: nat,
    pub max_requests: nat,
    pub am_choking: bool,
    pub am_interested: bool,
    pub peer_choking: bool,
    pub peer_interested: bool,
    pub has: Seq<bool>,
    pub uploaded: nat,
    pub downloaded: nat,
    pub response_times_sum: nat,
    pub num_response_times: nat,
    pub chokes: nat,
    pub rejects: nat,
    pub timeouts: nat,
    pub congestion: Congestion,
}

impl View for Connection {
    type V = ConnectionModel;

    open spec fn view(&self) -> ConnectionModel {
        ConnectionModel {
            id: self.id,
            supports_fast: self.supports_fast,
            piece_cursor: self.piece_cursor,
            outbox: message_views(self.outbox@),
            sent_requests: self.sent_requests as nat,
            max_requests: self.max_requests as nat,
            am_choking: self.am_choking,
            am_interested: self.am_interested,
            peer_choking: self.peer_choking,
            peer_interested: self.peer_interested,
            has: self.piece_bitfield@,
            uploaded: self.uploaded_this_second as nat,
            downloaded: self.downloaded_this_second as nat,
            response_times_sum: self.response_times_sum as nat,
            num_response_times: self.num_response_times as nat,
            chokes: self.chokes_this_second as nat,
            rejects: self.rejects_this_second as nat,
            timeouts: self.timeouts_this_second as nat,
            congestion: self.congestion,
        }
    }
}

/// A connection's second. The response times are in nanoseconds.
#[derive(Clone, Copy, Debug)]
pub struct Report {
    pub peer: PeerId,
    pub sent_requests: usize,
    pub response_times_sum: u128,
    pub num_response_times: usize,
    pub chokes: usize,
    pub rejects: usize,
}

impl Report {
    /// The report is that of a connection.
    pub open spec fn is_of(self, e: (PeerId, ConnectionModel)) -> bool {
        &&& self.peer == e.0
        &&& self.sent_requests == e.1.sent_requests
        &&& self.response_times_sum == e.1.response_times_sum
        &&& self.num_response_times == e.1.num_response_times
        &&& self.chokes == e.1.chokes
        &&& self.rejects == e.1.rejects
    }
}

/// The reports are those of the connections, one for one.
pub open spec fn reported(r: Seq<Report>, connections: Seq<(PeerId, ConnectionModel)>) -> bool {
    &&& r.len() == connections.len()
    &&& forall|i: int| 0 <= i < r.len() ==> (#[trigger] r[i]).is_of(connections[i])
}

/// `n` less `count`, or nothing.
pub open spec fn less(n: nat, count: nat) -> nat {
    if n >= count {
        (n - count) as nat
    } else {
        0
    }
}

impl ConnectionModel {
    /// The number of requests that may be out keeps within its bounds, and the
    /// bitfield has a bit for each of `num_pieces` pieces.
    pub open spec fn wf(self, num_pieces: nat) -> bool {
        &&& MIN_MAX_REQUESTS <= self.max_requests <= MAX_MAX_REQUESTS
        &&& self.has.len() == num_pieces
        &&& self.piece_cursor matches Some(p) ==> p < num_pieces
        &&& self.response_times_sum <= self.num_response_times * u64::MAX
    }

    /// Another request may go out.
    pub open spec fn can_request(self) -> bool {
        self.sent_requests < self.max_requests && !self.peer_choking
    }

    /// The peer may be sent a block.
    pub open spec fn can_upload(self) -> bool {
        self.uploaded < UPLOAD_LIMIT && !self.am_choking
    }

    /// The counters of this second can take another `amount`.
    pub open spec fn room(self, amount: nat) -> bool {
        &&& self.uploaded + amount <= usize::MAX
        &&& self.downloaded + amount <= usize::MAX
        &&& self.num_response_times + amount <= usize::MAX
        &&& self.chokes + amount <= usize::MAX
        &&& self.rejects + amount <= usize::MAX
        &&& self.timeouts + amount <= usize::MAX
    }

    pub open spec fn send(self, message: MessageModel) -> ConnectionModel {
        ConnectionModel { outbox: self.outbox.push(message), ..self }
    }

    pub open spec fn sub_sent_requests(self, count: nat) -> ConnectionModel {
        ConnectionModel { sent_requests: less(self.sent_requests, count), ..self }
    }

    pub open spec fn set_am_choking(self, choking: bool) -> ConnectionModel {
        ConnectionModel { am_choking: choking, ..self }.send(MessageModel::Choked(choking))
    }

    pub open spec fn set_am_interested(self, interested: bool) -> ConnectionModel {
        ConnectionModel { am_interested: interested, ..self }.send(
            MessageModel::Interested(interested),
        )
    }

    pub open spec fn set_peer_choking(self, choking: bool) -> ConnectionModel {
        if choking {
            ConnectionModel {
                peer_choking: true,
                chokes: self.chokes + 1,
                sent_requests: if self.supports_fast {
                    self.sent_requests
                } else {
                    0
                },
                ..self
            }
        } else {
            ConnectionModel { peer_choking: false, ..self }
        }
    }

    pub open spec fn reject(self) -> ConnectionModel {
        ConnectionModel { rejects: self.rejects + 1, ..self }.sub_sent_requests(1)
    }

    pub open spec fn timeout(self, count: nat) -> ConnectionModel {
        ConnectionModel { timeouts: self.timeouts + count, ..self }.sub_sent_requests(count)
    }

    pub open spec fn request(self, index: usize, begin: usize, length: usize) -> ConnectionModel {
        ConnectionModel { sent_requests: self.sent_requests + 1, ..self }.send(
            MessageModel::Request { index, begin, length },
        )
    }

    pub open spec fn receive_piece(
        self,
        length: nat,
        response_time: Option<u64>,
        is_downloading: bool,
    ) -> ConnectionModel {
        let counted = ConnectionModel {
            downloaded: self.downloaded + length,
            response_times_sum: match response_time {
                Some(t) => self.response_times_sum + t as nat,
                None => self.response_times_sum,
            },
            num_response_times: if response_time is Some {
                self.num_response_times + 1
            } else {
                self.num_response_times
            },
            ..self
        };
        if is_downloading {
            counted.sub_sent_requests(1)
        } else {
            counted
        }
    }

    pub open spec fn send_piece(self, index: usize, begin: usize, piece: Seq<u8>) -> ConnectionModel {
        ConnectionModel { uploaded: self.uploaded + piece.len(), ..self }.send(
            MessageModel::Piece { index, begin, piece, response_time: None },
        )
    }

    /// Two more requests, up to the most.
    pub open spec fn boosted(n: nat) -> nat {
        if n + MAX_REQUESTS_STEP <= MAX_MAX_REQUESTS {
            (n + MAX_REQUESTS_STEP) as nat
        } else {
            MAX_MAX_REQUESTS as nat
        }
    }

    /// Three quarters of the requests, down to the fewest.
    pub open spec fn throttled(n: nat) -> nat {
        if n * 3 / 4 == 0 {
            MIN_MAX_REQUESTS as nat
        } else {
            n * 3 / 4
        }
    }

    /// Fewer requests under congestion, more after a second without it in which
    /// something came.
    pub open spec fn control_congestion(self) -> ConnectionModel {
        let congestion = self.congestion.after(self.timeouts);
        ConnectionModel {
            congestion,
            max_requests: if congestion == Congestion::Heavy {
                if self.peer_choking {
                    self.max_requests
                } else {
                    Self::throttled(self.max_requests)
                }
            } else if self.downloaded != 0 {
                Self::boosted(self.max_requests)
            } else {
                self.max_requests
            },
            ..self
        }
    }

    pub open spec fn reset_stats(self) -> ConnectionModel {
        ConnectionModel {
            uploaded: 0,
            downloaded: 0,
            response_times_sum: 0,
            num_response_times: 0,
            chokes: 0,
            rejects: 0,
            timeouts: 0,
            ..self.control_congestion()
        }
    }
}

/// A connection that nothing has gone over.
pub open spec fn fresh(id: PeerId, num_pieces: nat, supports_fast: bool) -> ConnectionModel {
    ConnectionModel {
        id,
        supports_fast,
        piece_cursor: None,
        outbox: Seq::empty(),
        sent_requests: 0,
        max_requests: DEFAULT_MAX_REQUESTS as nat,
        am_choking: true,
        am_interested: false,
        peer_choking: true,
        peer_interested: false,
        has: Seq::new(num_pieces, |i: int| false),
        uploaded: 0,
        downloaded: 0,
        response_times_sum: 0,
        num_response_times: 0,
        chokes: 0,
        rejects: 0,
        timeouts: 0,
        congestion: Congestion::Calm,
    }
}

/// However a second went, the number of requests that may be out keeps within
/// its bounds.
pub proof fn law_max_requests_bounded(c: ConnectionModel)
    requires
        MIN_MAX_REQUESTS <= c.max_requests <= MAX_MAX_REQUESTS,
    ensures
        MIN_MAX_REQUESTS <= c.reset_stats().max_requests <= MAX_MAX_REQUESTS,
{
}

/// A connection without congestion that keeps delivering is given ever more
/// requests until it has the most; under congestion and unchoked it loses some
/// unless it has the fewest.
pub proof fn law_congestion_control_direction(c: ConnectionModel)
    requires
        MIN_MAX_REQUESTS <= c.max_requests <= MAX_MAX_REQUESTS,
    ensures
        c.congestion.after(c.timeouts) != Congestion::Heavy && c.downloaded > 0 ==> (
        c.reset_stats().max_requests > c.max_requests || c.reset_stats().max_requests
            == MAX_MAX_REQUESTS),
        c.congestion.after(c.timeouts) == Congestion::Heavy && !c.peer_choking ==> (
        c.reset_stats().max_requests < c.max_requests || c.reset_stats().max_requests
            == MIN_MAX_REQUESTS),
{
}

impl Connection {
    /// The model is well-formed and so is the bitfield.
    pub open spec fn wf(self, num_pieces: nat) -> bool {
        &&& self@.wf(num_pieces)
        &&& self.piece_bitfield.wf()
    }

    /// A connection that nothing has gone over.
    pub fn new(id: PeerId, num_pieces: usize, supports_fast: bool) -> (r: Connection)
        ensures
            r.wf(num_pieces as nat),
            r@ == fresh(id, num_pieces as nat, supports_fast),
    {
        let r = Connection {
            id,
            supports_fast,
            sent_requests: 0,
            piece_cursor: None,
            outbox: Vec::new(),
            max_requests: DEFAULT_MAX_REQUESTS,
            am_choking: true,
            am_interested: false,
            peer_choking: true,
            peer_interested: false,
            piece_bitfield: Bitfield::new(num_pieces),
            uploaded_this_second: 0,
            downloaded_this_second: 0,
            num_response_times: 0,
            response_times_sum: 0,
            chokes_this_second: 0,
            rejects_this_second: 0,
            timeouts_this_second: 0,
            congestion: Congestion::Calm,
        };
        assert(r@ =~= fresh(id, num_pieces as nat, supports_fast));
        r
    }

    /// Whether another request may go out.
    pub fn can_request(&self) -> (r: bool)
        ensures
            r == self@.can_request(),
    {
        self.sent_requests < self.max_requests && !self.peer_choking
    }

    /// Whether the peer may be sent a block.
    pub fn can_upload(&self) -> (r: bool)
        ensures
            r == self@.can_upload(),
    {
        self.uploaded_this_second < UPLOAD_LIMIT && !self.am_choking
    }

    /// The bytes sent to the peer this second.
    pub fn uploaded_this_second(&self) -> (r: usize)
        ensures
            r == self@.uploaded,
    {
        self.uploaded_this_second
    }

    /// The bytes that came from the peer this second.
    pub fn downloaded_this_second(&self) -> (r: usize)
        ensures
            r == self@.downloaded,
    {
        self.downloaded_this_second
    }

    /// The requests that timed out this second.
    pub fn timeouts_this_second(&self) -> (r: usize)
        ensures
            r == self@.timeouts,
    {
        self.timeouts_this_second
    }

    /// The requests that were refused this second.
    pub fn rejects_this_second(&self) -> (r: usize)
        ensures
            r == self@.rejects,
    {
        self.rejects_this_second
    }

    /// How many requests may be out.
    pub fn max_requests(&self) -> (r: usize)
        ensures
            r == self@.max_requests,
    {
        self.max_requests
    }

    /// How many requests are out.
    pub fn sent_requests(&self) -> (r: usize)
        ensures
            r == self@.sent_requests,
    {
        self.sent_requests
    }

    /// Whether the peer is choked.
    pub fn am_choking(&self) -> (r: bool)
        ensures
            r == self@.am_choking,
    {
        self.am_choking
    }

    /// Whether there is interest in the peer.
    pub fn am_interested(&self) -> (r: bool)
        ensures
            r == self@.am_interested,
    {
        self.am_interested
    }

    /// Whether the peer chokes.
    pub fn peer_choking(&self) -> (r: bool)
        ensures
            r == self@.peer_choking,
    {
        self.peer_choking
    }

    /// Whether the peer is interested.
    pub fn peer_interested(&self) -> (r: bool)
        ensures
            r == self@.peer_interested,
    {
        self.peer_interested
    }

    /// The pieces that the peer has.
    pub fn piece_bitfield(&self) -> (r: &Bitfield)
        ensures
            *r == self.piece_bitfield,
            r@ == self@.has,
    {
        &self.piece_bitfield
    }

    /// Whether the counters of this second can take another `amount`.
    pub fn has_room(&self, amount: usize) -> (r: bool)
        ensures
            r == self@.room(amount as nat),
    {
        let most = usize::MAX - amount;
        self.uploaded_this_second <= most && self.downloaded_this_second <= most
            && self.num_response_times <= most && self.chokes_this_second <= most
            && self.rejects_this_second <= most && self.timeouts_this_second <= most
    }

    /// Lets two more requests be out.
    pub fn boost_max_requests(&mut self)
        requires
            old(self).max_requests <= MAX_MAX_REQUESTS,
        ensures
            final(self)@ == (ConnectionModel {
                max_requests: ConnectionModel::boosted(old(self)@.max_requests),
                ..old(self)@
            }),
            final(self).piece_bitfield == old(self).piece_bitfield,
    {
        self.max_requests = if self.max_requests + MAX_REQUESTS_STEP <= MAX_MAX_REQUESTS {
            self.max_requests + MAX_REQUESTS_STEP
        } else {
            MAX_MAX_REQUESTS
        };
    }

    /// Lets three quarters of the requests be out.
    pub fn throttle_max_requests(&mut self)
        requires
            old(self).max_requests <= MAX_MAX_REQUESTS,
        ensures
            final(self)@ == (ConnectionModel {
                max_requests: ConnectionModel::throttled(old(self)@.max_requests),
                ..old(self)@
            }),
            final(self).piece_bitfield == old(self).piece_bitfield,
    {
        self.max_requests = (self.max_requests * 3) / 4;
        if self.max_requests == 0 {
            self.max_requests = MIN_MAX_REQUESTS;
        }
    }

    /// Counts `count` requests as answered.
    pub fn sub_sent_requests(&mut self, count: usize)
        ensures
            final(self)@ == old(self)@.sub_sent_requests(count as nat),
            final(self).piece_bitfield == old(self).piece_bitfield,
    {
        self.sent_requests = self.sent_requests.saturating_sub(count);
    }

    /// Counts no request as being out.
    pub fn reset_sent_requests(&mut self)
        ensures
            final(self)@ == (ConnectionModel { sent_requests: 0, ..old(self)@ }),
            final(self).piece_bitfield == old(self).piece_bitfield,
    {
        self.sent_requests = 0;
    }

    /// Queues a message for the peer.
    pub fn send(&mut self, message: Message)
        ensures
            final(self)@ == old(self)@.send(message@),
            final(self).piece_bitfield == old(self).piece_bitfield,
    {
        let ghost m = message@;
        self.outbox.push(message);
        assert(self@.outbox =~= old(self)@.outbox.push(m));
    }

    /// Chokes or unchokes the peer and tells it.
    pub fn set_am_choking(&mut self, choking: bool)
        ensures
            final(self)@ == old(self)@.set_am_choking(choking),
            final(self).piece_bitfield == old(self).piece_bitfield,
    {
        self.am_choking = choking;
        self.send(Message::Choked(choking));
    }

    /// Declares interest or its end.
    pub fn set_am_interested(&mut self, interested: bool)
        ensures
            final(self)@ == old(self)@.set_am_interested(interested),
            final(self).piece_bitfield == old(self).piece_bitfield,
    {
        self.am_interested = interested;
        self.send(Message::Interested(interested));
    }

    /// Takes note that the peer chokes or unchokes. A peer without the fast
    /// extension drops all requests when it chokes.
    pub fn set_peer_choking(&mut self, choking: bool)
        requires
            choking ==> old(self).chokes_this_second < usize::MAX,
        ensures
            final(self)@ == old(self)@.set_peer_choking(choking),
            final(self).piece_bitfield == old(self).piece_bitfield,
    {
        self.peer_choking = choking;
        if choking {
            self.chokes_this_second += 1;
            if !self.supports_fast {
                self.reset_sent_requests();
            }
        }
    }

    /// Takes note of the peer's interest.
    pub fn set_peer_interested(&mut self, interested: bool)
        ensures
            final(self)@ == (ConnectionModel { peer_interested: interested, ..old(self)@ }),
            final(self).piece_bitfield == old(self).piece_bitfield,
    {
        self.peer_interested = interested;
    }

    /// Takes the pieces that the peer has from a bitfield of the right size;
    /// the two sizes in bytes otherwise, expected first.
    pub fn set_bitfield(&mut self, bitfield: &Bitfield) -> (r: Result<(), (usize, usize)>)
        requires
            old(self).piece_bitfield.wf(),
        ensures
            final(self).piece_bitfield.wf(),
            match r {
                Ok(()) => {
                    &&& bitfield.bytes@.len() == old(self).piece_bitfield.bytes@.len()
                    &&& final(self)@ == (ConnectionModel {
                        has: bitfield::bits_of(bitfield.bytes@, old(self)@.has.len() as int),
                        ..old(self)@
                    })
                },
                Err((expected, got)) => {
                    &&& expected == old(self).piece_bitfield.bytes@.len()
                    &&& got == bitfield.bytes@.len()
                    &&& expected != got
                    &&& final(self)@ == old(self)@
                },
            },
    {
        if bitfield.num_bytes() != self.piece_bitfield.num_bytes() {
            return Err((self.piece_bitfield.num_bytes(), bitfield.num_bytes()));
        }
        self.piece_bitfield.set_bytes(bitfield.as_bytes());
        Ok(())
    }

    /// Whether the peer has a piece.
    pub fn has_piece(&self, index: usize) -> (r: bool)
        requires
            self.piece_bitfield.wf(),
            index < self@.has.len(),
        ensures
            r == self@.has[index as int],
    {
        self.piece_bitfield.has(index)
    }

    /// Takes note that the peer has a piece.
    pub fn set_piece(&mut self, index: usize)
        requires
            old(self).piece_bitfield.wf(),
            index < old(self)@.has.len(),
        ensures
            final(self).piece_bitfield.wf(),
            final(self)@ == (ConnectionModel {
                has: old(self)@.has.update(index as int, true),
                ..old(self)@
            }),
    {
        self.piece_bitfield.set(index)
    }

    /// Takes note that the peer has every piece.
    pub fn set_pieces(&mut self)
        requires
            old(self).piece_bitfield.wf(),
        ensures
            final(self).piece_bitfield.wf(),
            final(self)@ == (ConnectionModel {
                has: Seq::new(old(self)@.has.len(), |i: int| true),
                ..old(self)@
            }),
    {
        self.piece_bitfield.fill(true);
    }

    /// Takes note that the peer has no piece.
    pub fn unset_pieces(&mut self)
        requires
            old(self).piece_bitfield.wf(),
        ensures
            final(self).piece_bitfield.wf(),
            final(self)@ == (ConnectionModel {
                has: Seq::new(old(self)@.has.len(), |i: int| false),
                ..old(self)@
            }),
    {
        self.piece_bitfield.fill(false);
    }

    /// Counts a refused request.
    pub fn reject(&mut self)
        requires
            old(self).rejects_this_second < usize::MAX,
        ensures
            final(self)@ == old(self)@.reject(),
            final(self).piece_bitfield == old(self).piece_bitfield,
    {
        self.rejects_this_second += 1;
        self.sub_sent_requests(1);
    }

    /// Counts `count` requests that timed out.
    pub fn timeout(&mut self, count: usize)
        requires
            old(self).timeouts_this_second + count <= usize::MAX,
        ensures
            final(self)@ == old(self)@.timeout(count as nat),
            final(self).piece_bitfield == old(self).piece_bitfield,
    {
        self.timeouts_this_second += count;
        self.sub_sent_requests(count);
    }

    /// Asks for a block.
    pub fn request(&mut self, index: usize, begin: usize, length: usize)
        requires
            old(self).sent_requests < usize::MAX,
        ensures
            final(self)@ == old(self)@.request(index, begin, length),
            final(self).piece_bitfield == old(self).piece_bitfield,
    {
        self.send(Message::Request { index, begin, length });
        self.sent_requests += 1;
    }

    /// Counts a block that came in.
    pub fn receive_piece(&mut self, length: usize, response_time: Option<u64>, is_downloading: bool)
        requires
            old(self).downloaded_this_second + length <= usize::MAX,
            response_time is Some ==> old(self).num_response_times < usize::MAX,
            old(self)@.response_times_sum <= old(self)@.num_response_times * u64::MAX,
        ensures
            final(self)@ == old(self)@.receive_piece(
                length as nat,
                response_time,
                is_downloading,
            ),
            final(self).piece_bitfield == old(self).piece_bitfield,
    {
        if is_downloading {
            self.sub_sent_requests(1);
        }
        self.downloaded_this_second += length;
        if let Some(response_time) = response_time {
            let ghost n = self.num_response_times;
            assert(n * u64::MAX <= usize::MAX * u64::MAX) by (nonlinear_arith)
                requires
                    n <= usize::MAX,
            ;
            self.response_times_sum += response_time as u128;
            self.num_response_times += 1;
        }
    }

    /// Sends a block.
    pub fn send_piece(&mut self, index: usize, begin: usize, piece: Vec<u8>)
        requires
            old(self).uploaded_this_second + piece@.len() <= usize::MAX,
        ensures
            final(self)@ == old(self)@.send_piece(index, begin, piece@),
            final(self).piece_bitfield == old(self).piece_bitfield,
    {
        self.uploaded_this_second += piece.len();
        self.send(Message::Piece { index, begin, piece, response_time: None });
    }

    /// Adapts the number of requests to how the second went.
    fn control_congestion(&mut self)
        requires
            old(self).max_requests <= MAX_MAX_REQUESTS,
        ensures
            final(self)@ == old(self)@.control_congestion(),
            final(self).piece_bitfield == old(self).piece_bitfield,
    {
        self.congestion = self.congestion.next(self.timeouts_this_second);
        if self.congestion == Congestion::Heavy {
            if !self.peer_choking {
                self.throttle_max_requests();
            }
        } else if self.downloaded_this_second != 0 {
            self.boost_max_requests();
        }
    }

    /// Ends a second.
    pub fn reset_stats(&mut self)
        requires
            old(self).max_requests <= MAX_MAX_REQUESTS,
        ensures
            final(self)@ == old(self)@.reset_stats(),
            final(self).piece_bitfield == old(self).piece_bitfield,
    {
        self.control_congestion();
        self.uploaded_this_second = 0;
        self.downloaded_this_second = 0;
        self.num_response_times = 0;
        self.response_times_sum = 0;
        self.chokes_this_second = 0;
        self.rejects_this_second = 0;
        self.timeouts_this_second = 0;
    }

    /// Takes the queued messages out for sending.
    pub fn take_outbox(&mut self) -> (r: Vec<Message>)
        ensures
            message_views(r@) == old(self)@.outbox,
            final(self)@ == (ConnectionModel { outbox: Seq::empty(), ..old(self)@ }),
            final(self).piece_bitfield == old(self).piece_bitfield,
    {
        let mut r: Vec<Message> = Vec::new();
        std::mem::swap(&mut r, &mut self.outbox);
        assert(self@.outbox =~= Seq::<MessageModel>::empty());
        r
    }
}

/// A new connection chokes and is choked, shows no interest and sees none, has
/// nothing and has sent nothing, and may have two requests out.
pub proof fn law_new_connection(id: PeerId, num_pieces: nat, supports_fast: bool, p: int)
    ensures
        ({
            let c = fresh(id, num_pieces, supports_fast);
            &&& c.am_choking && c.peer_choking && !c.am_interested && !c.peer_interested
            &&& c.has.len() == num_pieces && (0 <= p < num_pieces ==> !c.has[p])
            &&& c.outbox.len() == 0 && c.sent_requests == 0 && c.piece_cursor is None
            &&& c.max_requests == 2
            &&& c.id == id && c.supports_fast == supports_fast
            &&& !c.can_request() && !c.can_upload()
        }),
{
}

/// At the end of a second its counters start over, and what the connection is
/// about stays. Two more requests may be out after a second that brought something
/// without congestion, up to 200, and a quarter less after one with it, down to
/// one; a peer that chokes loses none.
pub proof fn law_second_over(c: ConnectionModel)
    requires
        1 <= c.max_requests <= 200,
    ensures
        ({
            let d = c.reset_stats();
            let n = c.max_requests as int;
            let congested = c.congestion.after(c.timeouts) == Congestion::Heavy;
            &&& d.uploaded == 0 && d.downloaded == 0 && d.chokes == 0 && d.rejects == 0
                && d.timeouts == 0 && d.num_response_times == 0 && d.response_times_sum == 0
            &&& d.outbox == c.outbox && d.has == c.has && d.piece_cursor == c.piece_cursor
            &&& d.sent_requests == c.sent_requests
            &&& d.am_choking == c.am_choking && d.peer_choking == c.peer_choking
                && d.am_interested == c.am_interested && d.peer_interested == c.peer_interested
            &&& congested && !c.peer_choking ==> {
                &&& 4 * d.max_requests <= 3 * n < 4 * (d.max_requests + 1) || d.max_requests == 1 && n
                    == 1
            }
            &&& congested && c.peer_choking ==> d.max_requests == n
            &&& !congested && c.downloaded > 0 ==> d.max_requests == if n + 2 <= 200 {
                n + 2
            } else {
                200
            }
            &&& !congested && c.downloaded == 0 ==> d.max_requests == n
        }),
{
}

} // verus!
