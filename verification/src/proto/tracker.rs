//! What a client tells its trackers, and what they answer.

use crate::bencode;
use crate::bencode::{BencodeModel, BencodeValue, Parsed};
use crate::bytes;
use crate::number;
use crate::proto::compact;
use crate::proto::pex;
use crate::text;
use crate::types;
use crate::types::{PeerId, PeerInfo, PeerInfoView, Sha1Hash};
use vstd::prelude::*;

verus! {

/// Why an announce is made.
#[derive(Clone, Copy, Debug, PartialEq, Eq, Structural)]
pub enum Event {
    /// One of the announces made at regular intervals.
    Empty,
    Completed,
    Started,
    Stopped,
}

/// The state of a download as trackers are told of it.
#[derive(Clone, Copy, Debug)]
pub struct Progress {
    pub downloaded: usize,
    pub left: usize,
    pub uploaded: usize,
    pub event: Event,
}

impl Default for Progress {
    fn default() -> (r: Progress)
        ensures
            r == (Progress { downloaded: 0, left: 0, uploaded: 0, event: Event::Empty }),
    {
        Progress { downloaded: 0, left: 0, uploaded: 0, event: Event::Empty }
    }
}

/// What a tracker answers. Intervals are in seconds.
#[derive(Debug)]
pub struct TrackerResponse {
    pub interval: u64,
    pub min_interval: Option<u64>,
    pub seeders: Option<u64>,
    pub leechers: Option<u64>,
    pub peers: Vec<PeerInfo>,
}

/// An answer's contents.
#[verifier::ext_equal]
pub struct ResponseView {
    pub interval: u64,
    pub min_interval: Option<u64>,
    pub seeders: Option<u64>,
    pub leechers: Option<u64>,
    pub peers: Seq<PeerInfoView>,
}

impl View for TrackerResponse {
    type V = ResponseView;

    open spec fn view(&self) -> ResponseView {
        ResponseView {
            interval: self.interval,
            min_interval: self.min_interval,
            seeders: self.seeders,
            leechers: self.leechers,
            peers: pex::info_views(self.peers@),
        }
    }
}

impl ResponseView {
    /// Every peer has an endpoint.
    pub open spec fn wf(self) -> bool {
        forall|i: int| 0 <= i < self.peers.len() ==> (#[trigger] self.peers[i]).endpoints.len() > 0
    }
}

/// The number under a key, if there is anything, or why it is none.
pub open spec fn number_under(v: BencodeModel, key: Seq<char>) -> Result<Option<u64>, Seq<char>> {
    match bencode::entry(v, key) {
        None => Ok(None),
        Some(found) => match bencode::as_unsigned(found, key) {
            Ok(n) => Ok(Some(n)),
            Err(e) => Err(e),
        },
    }
}

/// The answer that a dictionary holds, or why it holds none.
pub open spec fn response_in(v: BencodeModel) -> Result<ResponseView, Seq<char>> {
    match bencode::entry(v, "failure reason"@) {
        Some(reason) => match bencode::as_text(reason, "failure reason"@) {
            Ok(text) => Err(text),
            Err(e) => Err(e),
        },
        None => match bencode::required_entry(v, "interval"@) {
            Err(e) => Err(e),
            Ok(interval) => match bencode::as_unsigned(interval, "interval"@) {
                Err(e) => Err(e),
                Ok(interval) => match number_under(v, "min interval"@) {
                    Err(e) => Err(e),
                    Ok(min_interval) => match number_under(v, "complete"@) {
                        Err(e) => Err(e),
                        Ok(seeders) => match number_under(v, "incomplete"@) {
                            Err(e) => Err(e),
                            Ok(leechers) => match pex::peers_under(v, "peers"@) {
                                Err(e) => Err(e),
                                Ok(peers) => Ok(
                                    ResponseView {
                                        interval,
                                        min_interval,
                                        seeders,
                                        leechers,
                                        peers,
                                    },
                                ),
                            },
                        },
                    },
                },
            },
        },
    }
}

/// The answer that bytes write, or why they write none.
pub open spec fn parse(s: Seq<u8>) -> Result<ResponseView, Seq<char>> {
    match bencode::value_at(s, 0) {
        Parsed::Value(v, _) => response_in(v),
        Parsed::End => Err("Unable to find root dictionary"@),
        Parsed::Error(e) => Err(e),
    }
}

/// The answer to an announce over UDP that a datagram holds.
pub open spec fn parse_datagram(s: Seq<u8>, transaction: u32) -> Option<ResponseView> {
    if s.len() < 20 || number::be32_value(s.subrange(0, 4)) != 1 || number::be32_value(
        s.subrange(4, 8),
    ) != transaction {
        None
    } else {
        Some(
            ResponseView {
                interval: number::be32_value(s.subrange(8, 12)) as u64,
                min_interval: None,
                leechers: Some(number::be32_value(s.subrange(12, 16)) as u64),
                seeders: Some(number::be32_value(s.subrange(16, 20)) as u64),
                peers: compact::peers(s.skip(20)),
            },
        )
    }
}

impl TrackerResponse {
    /// Reads the answer to an announce over HTTP.
    pub fn from_bytes(encoded: &[u8]) -> (r: Result<TrackerResponse, String>)
        ensures
            match r {
                Ok(response) => parse(encoded@) == Ok::<_, Seq<char>>(response@)
                    && response@.wf(),
                Err(e) => parse(encoded@) == Err::<ResponseView, _>(e@),
            },
    {
        let root = match BencodeValue::from_bytes(encoded) {
            Ok((Some(root), _)) => root,
            Ok((None, _)) => {
                return Err("Unable to find root dictionary".to_owned());
            },
            Err(e) => {
                return Err(e);
            },
        };
        if let Some(reason) = root.get("failure reason") {
            return match reason.string("failure reason") {
                Ok(text) => Err(text),
                Err(e) => Err(e),
            };
        }
        let interval = match root.required("interval") {
            Ok(interval) => match interval.unsigned("interval") {
                Ok(interval) => interval,
                Err(e) => {
                    return Err(e);
                },
            },
            Err(e) => {
                return Err(e);
            },
        };
        let min_interval = match root.optional_unsigned("min interval") {
            Ok(min_interval) => min_interval,
            Err(e) => {
                return Err(e);
            },
        };
        let seeders = match root.optional_unsigned("complete") {
            Ok(seeders) => seeders,
            Err(e) => {
                return Err(e);
            },
        };
        let leechers = match root.optional_unsigned("incomplete") {
            Ok(leechers) => leechers,
            Err(e) => {
                return Err(e);
            },
        };
        match pex::read_peers(&root, "peers") {
            Ok(peers) => Ok(
                TrackerResponse { interval, min_interval, seeders, leechers, peers },
            ),
            Err(e) => Err(e),
        }
    }

    /// Reads the answer to an announce over UDP.
    pub fn from_datagram(datagram: &[u8], transaction: u32) -> (r: Option<TrackerResponse>)
        ensures
            match r {
                Some(response) => parse_datagram(datagram@, transaction) == Some(response@)
                    && response@.wf(),
                None => parse_datagram(datagram@, transaction) is None,
            },
    {
        let total = datagram.len();
        if total < 20 || number::read_be32(datagram, 0) != 1 || number::read_be32(datagram, 4)
            != transaction {
            return None;
        }
        let rest = bytes::copy_range(datagram, 20, total);
        assert(rest@ =~= datagram@.skip(20));
        Some(
            TrackerResponse {
                interval: number::read_be32(datagram, 8) as u64,
                min_interval: None,
                leechers: Some(number::read_be32(datagram, 12) as u64),
                seeders: Some(number::read_be32(datagram, 16) as u64),
                peers: compact::read_peers(rest.as_slice()),
            },
        )
    }
}

/// What an event is called in a query; nothing for a regular announce.
pub open spec fn event_query(event: Event) -> Seq<char> {
    match event {
        Event::Empty => ""@,
        Event::Completed => "&event=completed"@,
        Event::Started => "&event=started"@,
        Event::Stopped => "&event=stopped"@,
    }
}

/// The query of an announce over HTTP.
pub open spec fn query_of(
    client_id: PeerId,
    info_hash: Sha1Hash,
    progress: Progress,
    port: u16,
) -> Seq<char> {
    "info_hash="@ + types::hex_text(info_hash.bytes@, "%"@) + "&peer_id="@ + types::hex_text(
        client_id.bytes@,
        "%"@,
    ) + "&port="@ + number::decimal(port as nat) + "&uploaded="@ + number::decimal(
        progress.uploaded as nat,
    ) + "&downloaded="@ + number::decimal(progress.downloaded as nat) + "&left="@
        + number::decimal(progress.left as nat) + "&compact=1"@ + event_query(progress.event)
}

/// The query of an announce over HTTP.
pub fn announce_query(
    client_id: &PeerId,
    info_hash: &Sha1Hash,
    progress: &Progress,
    port: u16,
) -> (r: String)
    ensures
        r@ == query_of(*client_id, *info_hash, *progress, port),
{
    let mut r = "info_hash=".to_owned();
    types::push_hex(&mut r, info_hash.bytes.as_slice(), "%");
    r.append("&peer_id=");
    types::push_hex(&mut r, client_id.bytes.as_slice(), "%");
    r.append("&port=");
    number::push_decimal(&mut r, port as u64);
    r.append("&uploaded=");
    number::push_decimal(&mut r, progress.uploaded as u64);
    r.append("&downloaded=");
    number::push_decimal(&mut r, progress.downloaded as u64);
    r.append("&left=");
    number::push_decimal(&mut r, progress.left as u64);
    r.append("&compact=1");
    match progress.event {
        Event::Empty => r.append(""),
        Event::Completed => r.append("&event=completed"),
        Event::Started => r.append("&event=started"),
        Event::Stopped => r.append("&event=stopped"),
    }
    r
}

/// A URL with a query, added to the one that it has if it has one.
pub open spec fn with_query(url: Seq<char>, query: Seq<char>) -> Seq<char> {
    url.push(
        if url.contains('?') {
            '&'
        } else {
            '?'
        },
    ) + query
}

/// The URL of an announce over HTTP.
pub fn announce_url(
    url: &str,
    client_id: &PeerId,
    info_hash: &Sha1Hash,
    progress: &Progress,
    port: u16,
) -> (r: String)
    ensures
        r@ == with_query(url@, query_of(*client_id, *info_hash, *progress, port)),
{
    let chars = text::chars_of(url);
    let mut asks = false;
    let mut i: usize = 0;
    while i < chars.len()
        invariant
            i <= chars@.len(),
            chars@ == url@,
            asks == exists|j: int| 0 <= j < i && #[trigger] url@[j] == '?',
        decreases chars@.len() - i,
    {
        if chars[i] == '?' {
            asks = true;
            assert(url@[i as int] == '?');
        }
        i += 1;
    }
    assert(asks == url@.contains('?'));
    let mut r = url.to_owned();
    r.push(
        if asks {
            '&'
        } else {
            '?'
        },
    );
    let query = announce_query(client_id, info_hash, progress, port);
    r.append(query.as_str());
    r
}

/// What opens a conversation over UDP: the protocol's number, the action and the
/// transaction.
pub open spec fn connect_datagram_of(transaction: u32) -> Seq<u8> {
    number::be64(0x417_2710_1980) + number::be32(0) + number::be32(transaction)
}

/// What opens a conversation over UDP.
pub fn connect_datagram(transaction: u32) -> (r: Vec<u8>)
    ensures
        r@ == connect_datagram_of(transaction),
{
    let mut r: Vec<u8> = Vec::new();
    number::push_be64(&mut r, 0x417_2710_1980);
    assert(r@ =~= number::be64(0x417_2710_1980));
    number::push_be32(&mut r, 0);
    number::push_be32(&mut r, transaction);
    r
}

/// The connection that a tracker grants over UDP, if a datagram grants one.
pub open spec fn connection_of(s: Seq<u8>, transaction: u32) -> Option<u64> {
    if s.len() < 16 || number::be32_value(s.subrange(0, 4)) != 0 || number::be32_value(
        s.subrange(4, 8),
    ) != transaction {
        None
    } else {
        Some(
            (number::be32_value(s.subrange(8, 12)) * 0x1_0000_0000 + number::be32_value(
                s.subrange(12, 16),
            )) as u64,
        )
    }
}

/// The connection that a tracker grants over UDP.
pub fn read_connection(datagram: &[u8], transaction: u32) -> (r: Option<u64>)
    ensures
        r == connection_of(datagram@, transaction),
{
    let total = datagram.len();
    if total < 16 || number::read_be32(datagram, 0) != 0 || number::read_be32(datagram, 4)
        != transaction {
        return None;
    }
    let high = number::read_be32(datagram, 8) as u64;
    let low = number::read_be32(datagram, 12) as u64;
    Some(high * 0x1_0000_0000 + low)
}

/// The number of an event over UDP.
pub open spec fn event_number(event: Event) -> u32 {
    match event {
        Event::Empty => 0,
        Event::Completed => 1,
        Event::Started => 2,
        Event::Stopped => 3,
    }
}

/// An announce over UDP. It asks for as many peers as the tracker likes.
pub open spec fn announce_datagram_of(
    connection: u64,
    transaction: u32,
    client_id: PeerId,
    info_hash: Sha1Hash,
    progress: Progress,
    port: u16,
) -> Seq<u8> {
    number::be64(connection) + number::be32(1) + number::be32(transaction) + info_hash.bytes@
        + client_id.bytes@ + number::be64(progress.downloaded as u64) + number::be64(
        progress.left as u64,
    ) + number::be64(progress.uploaded as u64) + number::be32(event_number(progress.event))
        + number::be32(0) + number::be32(transaction) + number::be32(0xffff_ffff) + number::be16(
        port,
    )
}

/// An announce over UDP.
pub fn announce_datagram(
    connection: u64,
    transaction: u32,
    client_id: &PeerId,
    info_hash: &Sha1Hash,
    progress: &Progress,
    port: u16,
) -> (r: Vec<u8>)
    ensures
        r@ == announce_datagram_of(
            connection,
            transaction,
            *client_id,
            *info_hash,
            *progress,
            port,
        ),
{
    let mut r: Vec<u8> = Vec::new();
    number::push_be64(&mut r, connection);
    assert(r@ =~= number::be64(connection));
    number::push_be32(&mut r, 1);
    number::push_be32(&mut r, transaction);
    bytes::append_bytes(&mut r, info_hash.bytes.as_slice());
    bytes::append_bytes(&mut r, client_id.bytes.as_slice());
    number::push_be64(&mut r, progress.downloaded as u64);
    number::push_be64(&mut r, progress.left as u64);
    number::push_be64(&mut r, progress.uploaded as u64);
    let event = match progress.event {
        Event::Empty => 0u32,
        Event::Completed => 1,
        Event::Started => 2,
        Event::Stopped => 3,
    };
    number::push_be32(&mut r, event);
    number::push_be32(&mut r, 0);
    number::push_be32(&mut r, transaction);
    number::push_be32(&mut r, 0xffff_ffff);
    number::push_be16(&mut r, port);
    r
}

/// What the `n` bytes of a datagram from `at` on are worth as a number.
pub open spec fn number_at(s: Seq<u8>, at: int, n: int) -> nat {
    number::worth(s.subrange(at, at + n))
}

/// Over UDP a tracker is told, at the places where it looks: who asks and in what
/// conversation, for which torrent, and how far the download is.
pub proof fn law_announce_fields(
    connection: u64,
    transaction: u32,
    client_id: PeerId,
    info_hash: Sha1Hash,
    progress: Progress,
    port: u16,
)
    ensures
        ({
            let s = announce_datagram_of(
                connection,
                transaction,
                client_id,
                info_hash,
                progress,
                port,
            );
            &&& s.len() == 98
            &&& number_at(s, 0, 8) == connection
            &&& number_at(s, 8, 4) == 1
            &&& number_at(s, 12, 4) == transaction
            &&& s.subrange(16, 36) == info_hash.bytes@
            &&& s.subrange(36, 56) == client_id.bytes@
            &&& number_at(s, 56, 8) == progress.downloaded
            &&& number_at(s, 64, 8) == progress.left
            &&& number_at(s, 72, 8) == progress.uploaded
            &&& number_at(s, 80, 4) == match progress.event {
                Event::Empty => 0nat,
                Event::Completed => 1,
                Event::Started => 2,
                Event::Stopped => 3,
            }
            &&& number_at(s, 84, 4) == 0
            &&& number_at(s, 92, 4) == u32::MAX
            &&& number_at(s, 96, 2) == port
        }),
{
    let s = announce_datagram_of(connection, transaction, client_id, info_hash, progress, port);
    let e = event_number(progress.event);
    let none: Seq<u8> = Seq::empty();
    number::law_bytes_worth(port, 1, connection, none);
    number::law_bytes_worth(port, transaction, progress.downloaded as u64, none);
    number::law_bytes_worth(port, e, progress.left as u64, none);
    number::law_bytes_worth(port, 0, progress.uploaded as u64, none);
    number::law_bytes_worth(port, 0xffff_ffff, 0, none);
    assert(s.subrange(0, 8) =~= number::be64(connection));
    assert(s.subrange(8, 12) =~= number::be32(1));
    assert(s.subrange(12, 16) =~= number::be32(transaction));
    assert(s.subrange(16, 36) =~= info_hash.bytes@);
    assert(s.subrange(36, 56) =~= client_id.bytes@);
    assert(s.subrange(56, 64) =~= number::be64(progress.downloaded as u64));
    assert(s.subrange(64, 72) =~= number::be64(progress.left as u64));
    assert(s.subrange(72, 80) =~= number::be64(progress.uploaded as u64));
    assert(s.subrange(80, 84) =~= number::be32(e));
    assert(s.subrange(84, 88) =~= number::be32(0));
    assert(s.subrange(92, 96) =~= number::be32(0xffff_ffff));
    assert(s.subrange(96, 98) =~= number::be16(port));
}

/// A conversation over UDP is opened with the protocol's number, and a tracker
/// grants a connection only in answer to that, in the same conversation.
pub proof fn law_connection_granted(transaction: u32, s: Seq<u8>)
    ensures
        ({
            let hello = connect_datagram_of(transaction);
            &&& hello.len() == 16
            &&& number_at(hello, 0, 8) == 0x417_2710_1980
            &&& number_at(hello, 8, 4) == 0
            &&& number_at(hello, 12, 4) == transaction
        }),
        connection_of(s, transaction) is Some <==> s.len() >= 16 && number_at(s, 0, 4) == 0
            && number_at(s, 4, 4) == transaction,
        connection_of(s, transaction) matches Some(c) ==> c == 0x1_0000_0000 * number_at(s, 8, 4)
            + number_at(s, 12, 4),
{
    let hello = connect_datagram_of(transaction);
    let none: Seq<u8> = Seq::empty();
    number::law_bytes_worth(0, 0, 0x417_2710_1980, none);
    number::law_bytes_worth(0, transaction, 0, none);
    assert(hello.subrange(0, 8) =~= number::be64(0x417_2710_1980));
    assert(hello.subrange(8, 12) =~= number::be32(0));
    assert(hello.subrange(12, 16) =~= number::be32(transaction));
    if s.len() >= 16 {
        number::law_bytes_worth(0, 0, 0, s.subrange(0, 4));
        number::law_bytes_worth(0, 0, 0, s.subrange(4, 8));
        number::law_bytes_worth(0, 0, 0, s.subrange(8, 12));
        number::law_bytes_worth(0, 0, 0, s.subrange(12, 16));
    }
}

/// A tracker's answer over UDP counts only in the same conversation. It says when
/// to come again, how many leech and how many seed, and which peers there are.
pub proof fn law_datagram_read(
    s: Seq<u8>,
    transaction: u32,
    list: Seq<((u8, u8, u8, u8), u16)>,
)
    ensures
        parse_datagram(s, transaction) is Some <==> s.len() >= 20 && number_at(s, 0, 4) == 1
            && number_at(s, 4, 4) == transaction,
        parse_datagram(s, transaction) matches Some(r) ==> {
            &&& r.interval == number_at(s, 8, 4)
            &&& r.min_interval is None
            &&& r.leechers == Some(number_at(s, 12, 4) as u64)
            &&& r.seeders == Some(number_at(s, 16, 4) as u64)
            &&& s.skip(20) == compact::written_all(list) ==> r.peers.len() == list.len()
                && forall|i: int|
                0 <= i < list.len() ==> compact::is_at(
                    #[trigger] r.peers[i],
                    list[i].0,
                    list[i].1,
                )
        },
{
    compact::law_compact_round_trip(list);
    if s.len() >= 20 {
        number::law_bytes_worth(0, 0, 0, s.subrange(0, 4));
        number::law_bytes_worth(0, 0, 0, s.subrange(4, 8));
        number::law_bytes_worth(0, 0, 0, s.subrange(8, 12));
        number::law_bytes_worth(0, 0, 0, s.subrange(12, 16));
        number::law_bytes_worth(0, 0, 0, s.subrange(16, 20));
    }
}

/// A dictionary holds a number under a key exactly where it was read as that
/// number.
pub open spec fn holds_number(v: BencodeModel, key: Seq<char>, n: Option<u64>) -> bool {
    match n {
        Some(n) => bencode::entry(v, key) matches Some(BencodeModel::Integer(i)) && i == n,
        None => bencode::entry(v, key) is None,
    }
}

/// A tracker's answer over HTTP is what its dictionary says: no failure, the
/// interval, the least interval, how many are complete and how many are not, and
/// the peers.
pub proof fn law_answer_read(v: BencodeModel)
    ensures
        response_in(v) matches Ok(r) ==> {
            &&& bencode::entry(v, "failure reason"@) is None
            &&& holds_number(v, "interval"@, Some(r.interval))
            &&& holds_number(v, "min interval"@, r.min_interval)
            &&& holds_number(v, "complete"@, r.seeders)
            &&& holds_number(v, "incomplete"@, r.leechers)
            &&& match bencode::entry(v, "peers"@) {
                None => r.peers.len() == 0,
                Some(found) => found matches BencodeModel::ByteString(bytes) && bytes.len() == 6
                    * r.peers.len() && r.peers == compact::peers(bytes),
            }
        },
        bencode::entry(v, "failure reason"@) is Some ==> response_in(v) is Err,
{
}

} // verus!
