//! Identifiers and addresses of peers and torrents.

use crate::number;
use crate::text;
use vstd::prelude::*;

verus! {

/// A peer's self-chosen identity.
#[derive(Clone, Copy, Debug)]
pub struct PeerId {
    pub bytes: [u8; 20],
}

/// Whether two arrays hold the same bytes.
fn same_bytes(a: &[u8; 20], b: &[u8; 20]) -> (r: bool)
    ensures
        r == (*a == *b),
{
    let mut i: usize = 0;
    while i < 20
        invariant
            i <= 20,
            forall|j: int| 0 <= j < i ==> a@[j] == b@[j],
        decreases 20 - i,
    {
        if a[i] != b[i] {
            return false;
        }
        i += 1;
    }
    assert(a@ =~= b@);
    assert(*a =~= *b);
    true
}

impl PartialEq for PeerId {
    fn eq(&self, other: &PeerId) -> (r: bool) {
        same_bytes(&self.bytes, &other.bytes)
    }
}

impl Eq for PeerId {

}

impl vstd::std_specs::cmp::PartialEqSpecImpl for PeerId {
    open spec fn obeys_eq_spec() -> bool {
        true
    }

    open spec fn eq_spec(&self, other: &PeerId) -> bool {
        *self == *other
    }
}

/// A SHA-1 digest: of a piece, or of a torrent's info dictionary.
#[derive(Clone, Copy, Debug)]
pub struct Sha1Hash {
    pub bytes: [u8; 20],
}

impl PartialEq for Sha1Hash {
    fn eq(&self, other: &Sha1Hash) -> (r: bool) {
        same_bytes(&self.bytes, &other.bytes)
    }
}

impl Eq for Sha1Hash {

}

impl vstd::std_specs::cmp::PartialEqSpecImpl for Sha1Hash {
    open spec fn obeys_eq_spec() -> bool {
        true
    }

    open spec fn eq_spec(&self, other: &Sha1Hash) -> bool {
        *self == *other
    }
}

/// The value of a hexadecimal digit.
pub open spec fn hex_value(c: char) -> Option<u8> {
    if '0' <= c <= '9' {
        Some((c as u8 - '0' as u8) as u8)
    } else if 'a' <= c <= 'f' {
        Some((c as u8 - 'a' as u8 + 10) as u8)
    } else if 'A' <= c <= 'F' {
        Some((c as u8 - 'A' as u8 + 10) as u8)
    } else {
        None
    }
}

/// The value of a hexadecimal digit.
pub fn hex_digit(c: char) -> (r: Option<u8>)
    ensures
        r == hex_value(c),
        r matches Some(v) ==> v < 16,
{
    if '0' <= c && c <= '9' {
        Some(c as u8 - '0' as u8)
    } else if 'a' <= c && c <= 'f' {
        Some(c as u8 - 'a' as u8 + 10)
    } else if 'A' <= c && c <= 'F' {
        Some(c as u8 - 'A' as u8 + 10)
    } else {
        None
    }
}

/// The hexadecimal digit of a value below sixteen.
pub open spec fn hex_char(v: u8) -> char {
    if v < 10 {
        ('0' as u8 + v) as u8 as char
    } else {
        ('a' as u8 + (v - 10)) as u8 as char
    }
}

/// The two hexadecimal digits of a byte.
pub open spec fn hex_pair(b: u8) -> Seq<char> {
    seq![hex_char(b / 16), hex_char(b % 16)]
}

/// Bytes in hexadecimal, with `mark` before each of them.
pub open spec fn hex_text(bytes: Seq<u8>, mark: Seq<char>) -> Seq<char>
    decreases bytes.len(),
{
    if bytes.len() == 0 {
        Seq::empty()
    } else {
        hex_text(bytes.drop_last(), mark) + mark + hex_pair(bytes.last())
    }
}

/// The hexadecimal digit of a value below sixteen.
fn to_hex_digit(v: u8) -> (r: char)
    requires
        v < 16,
    ensures
        r == hex_char(v),
{
    if v < 10 {
        ('0' as u8 + v) as char
    } else {
        ('a' as u8 + (v - 10)) as char
    }
}

/// Appends bytes in hexadecimal, with `mark` before each of them.
pub fn push_hex(out: &mut String, bytes: &[u8], mark: &str)
    ensures
        final(out)@ == old(out)@ + hex_text(bytes@, mark@),
{
    let mut i: usize = 0;
    proof {
        assert(bytes@.take(0) =~= Seq::empty());
        assert(out@ =~= old(out)@ + hex_text(bytes@.take(0), mark@));
    }
    while i < bytes.len()
        invariant
            i <= bytes@.len(),
            out@ == old(out)@ + hex_text(bytes@.take(i as int), mark@),
        decreases bytes@.len() - i,
    {
        let ghost seen = bytes@.take(i as int + 1);
        proof {
            assert(seen.drop_last() =~= bytes@.take(i as int));
            assert(seen.last() == bytes@[i as int]);
        }
        let b = bytes[i];
        out.append(mark);
        out.push(to_hex_digit(b / 16));
        out.push(to_hex_digit(b % 16));
        assert(out@ =~= old(out)@ + hex_text(seen, mark@));
        i += 1;
    }
    assert(bytes@.take(i as int) =~= bytes@);
}

impl PeerId {
    /// The identity in hexadecimal.
    pub fn to_text(&self) -> (r: String)
        ensures
            r@ == hex_text(self.bytes@, Seq::empty()),
    {
        let mut r = String::new();
        let none = String::new();
        assert(none@ =~= Seq::empty());
        push_hex(&mut r, self.bytes.as_slice(), none.as_str());
        assert(r@ =~= hex_text(self.bytes@, Seq::empty()));
        r
    }
}

/// Two hexadecimal digits for each byte.
pub proof fn lemma_hex_length(bytes: Seq<u8>)
    ensures
        hex_text(bytes, Seq::empty()).len() == 2 * bytes.len(),
    decreases bytes.len(),
{
    if bytes.len() > 0 {
        lemma_hex_length(bytes.drop_last());
    }
}

/// The prefix of an exact topic that names a SHA-1 info hash.
pub open spec fn xt_prefix() -> Seq<char> {
    seq!['u', 'r', 'n', ':', 'b', 't', 'i', 'h', ':']
}

/// Whether `xt` names an info hash: the prefix and forty hexadecimal digits.
pub open spec fn is_xt(xt: Seq<char>) -> bool {
    &&& xt.len() == 49
    &&& xt.take(9) == xt_prefix()
    &&& forall|i: int| 9 <= i < 49 ==> hex_value(#[trigger] xt[i]) is Some
}

/// The byte that two hexadecimal digits write.
pub open spec fn hex_byte(hi: char, lo: char) -> u8 {
    (hex_value(hi)->0 * 16 + hex_value(lo)->0) as u8
}

impl Sha1Hash {
    /// Reads the info hash out of a magnet link's exact topic.
    pub fn from_xt(xt: &str) -> (r: Option<Sha1Hash>)
        ensures
            r is Some <==> is_xt(xt@),
            r matches Some(h) ==> forall|i: int|
                0 <= i < 20 ==> #[trigger] h.bytes@[i] == hex_byte(
                    xt@[9 + 2 * i],
                    xt@[10 + 2 * i],
                ),
    {
        let mut chars: Vec<char> = Vec::new();
        for c in it: xt.chars()
            invariant
                it.seq() == xt@,
                chars@ == xt@.take(it.index() as int),
        {
            assert(xt@.take(it.index() as int + 1) == xt@.take(it.index() as int).push(c));
            chars.push(c);
        }
        assert(chars@ =~= xt@);
        if chars.len() != 49 {
            return None;
        }
        let prefix: [char; 9] = ['u', 'r', 'n', ':', 'b', 't', 'i', 'h', ':'];
        let mut p: usize = 0;
        while p < 9
            invariant
                p <= 9,
                chars@ == xt@,
                chars@.len() == 49,
                prefix@ == xt_prefix(),
                forall|j: int| 0 <= j < p ==> xt@[j] == xt_prefix()[j],
            decreases 9 - p,
        {
            if chars[p] != prefix[p] {
                assert(xt@.take(9)[p as int] != xt_prefix()[p as int]);
                return None;
            }
            p += 1;
        }
        assert(xt@.take(9) =~= xt_prefix());
        let mut bytes: [u8; 20] = [0u8;20];
        let mut i: usize = 0;
        while i < 20
            invariant
                i <= 20,
                chars@ == xt@,
                chars@.len() == 49,
                forall|j: int| 9 <= j < 9 + 2 * i ==> hex_value(#[trigger] xt@[j]) is Some,
                forall|j: int|
                    0 <= j < i ==> #[trigger] bytes@[j] == hex_byte(xt@[9 + 2 * j], xt@[10 + 2 * j]),
            decreases 20 - i,
        {
            let hi = match hex_digit(chars[9 + 2 * i]) {
                Some(v) => v,
                None => {
                    return None;
                },
            };
            let lo = match hex_digit(chars[10 + 2 * i]) {
                Some(v) => v,
                None => {
                    return None;
                },
            };
            bytes[i] = hi * 16 + lo;
            i += 1;
        }
        Some(Sha1Hash { bytes })
    }
}

/// Where a peer listens.
#[derive(Debug)]
pub struct Endpoint {
    pub host: String,
    pub port: u16,
}

/// An endpoint's contents.
#[verifier::ext_equal]
pub struct EndpointView {
    pub host: Seq<char>,
    pub port: u16,
}

impl View for Endpoint {
    type V = EndpointView;

    open spec fn view(&self) -> EndpointView {
        EndpointView { host: self.host@, port: self.port }
    }
}

/// An endpoint as it is written: the host, a colon and the port.
pub open spec fn endpoint_text(e: EndpointView) -> Seq<char> {
    e.host.push(':') + number::decimal(e.port as nat)
}

impl Endpoint {
    /// A copy of the endpoint.
    pub fn copy(&self) -> (r: Endpoint)
        ensures
            r@ == self@,
    {
        Endpoint { host: self.host.clone(), port: self.port }
    }

    /// The endpoint as it is written.
    pub fn to_text(&self) -> (r: String)
        ensures
            r@ == endpoint_text(self@),
    {
        let mut r = self.host.clone();
        r.push(':');
        number::push_decimal(&mut r, self.port as u64);
        assert(r@ =~= endpoint_text(self@));
        r
    }

    /// Whether two endpoints name the same host and port.
    pub fn same(&self, other: &Endpoint) -> (r: bool)
        ensures
            r == (self@ == other@),
    {
        self.port == other.port && self.host == other.host
    }
}

/// What is known of a peer before and after it is reached.
#[derive(Debug)]
pub struct PeerInfo {
    pub id: Option<PeerId>,
    pub endpoints: Vec<Endpoint>,
}

/// A peer record's contents.
#[verifier::ext_equal]
pub struct PeerInfoView {
    pub id: Option<PeerId>,
    pub endpoints: Seq<EndpointView>,
}

/// The contents of a list of endpoints.
pub open spec fn endpoint_views(s: Seq<Endpoint>) -> Seq<EndpointView> {
    s.map_values(|e: Endpoint| e@)
}

impl View for PeerInfo {
    type V = PeerInfoView;

    open spec fn view(&self) -> PeerInfoView {
        PeerInfoView { id: self.id, endpoints: endpoint_views(self.endpoints@) }
    }
}

/// Endpoints as they are written.
pub open spec fn endpoint_texts(s: Seq<EndpointView>) -> Seq<Seq<char>> {
    s.map_values(|e: EndpointView| endpoint_text(e))
}

/// Endpoints as they are written, one after the other with `sep` between them.
pub fn join_endpoints(endpoints: &Vec<Endpoint>, sep: &str) -> (r: String)
    ensures
        r@ == text::joined(endpoint_texts(endpoint_views(endpoints@)), sep@),
{
    let ghost all = endpoint_texts(endpoint_views(endpoints@));
    let mut parts: Vec<String> = Vec::new();
    let mut i: usize = 0;
    while i < endpoints.len()
        invariant
            i <= endpoints@.len(),
            all == endpoint_texts(endpoint_views(endpoints@)),
            parts@.len() == i,
            forall|j: int| 0 <= j < i ==> (#[trigger] parts@[j])@ == all[j],
        decreases endpoints@.len() - i,
    {
        parts.push(endpoints[i].to_text());
        i += 1;
    }
    assert(text::texts(parts@).skip(0) =~= all);
    text::join_from(&parts, 0, sep)
}

/// Whether two records describe one peer: the same known identity, or a shared
/// endpoint.
pub open spec fn same_peer(a: PeerInfoView, b: PeerInfoView) -> bool {
    ||| (a.id is Some && a.id == b.id)
    ||| exists|i: int, j: int|
        0 <= i < a.endpoints.len() && 0 <= j < b.endpoints.len() && #[trigger] a.endpoints[i]
            == #[trigger] b.endpoints[j]
}

/// A record's endpoints as they are written.
pub open spec fn peer_text(p: PeerInfoView) -> Seq<char> {
    text::joined(endpoint_texts(p.endpoints), ", "@)
}

/// `known` extended with the endpoints of `other` that it lacks, in order.
pub open spec fn merged_endpoints(known: Seq<EndpointView>, other: Seq<EndpointView>) -> Seq<
    EndpointView,
>
    decreases other.len(),
{
    if other.len() == 0 {
        known
    } else {
        let before = merged_endpoints(known, other.drop_last());
        if before.contains(other.last()) {
            before
        } else {
            before.push(other.last())
        }
    }
}

/// One record out of two that describe the same peer.
pub open spec fn merged(a: PeerInfoView, b: PeerInfoView) -> PeerInfoView {
    PeerInfoView {
        id: if a.id is Some {
            a.id
        } else {
            b.id
        },
        endpoints: merged_endpoints(a.endpoints, b.endpoints),
    }
}

impl PeerInfo {
    /// The record's endpoints as they are written.
    pub fn to_text(&self) -> (r: String)
        ensures
            r@ == peer_text(self@),
    {
        join_endpoints(&self.endpoints, ", ")
    }

    /// A copy of the record.
    pub fn copy(&self) -> (r: PeerInfo)
        ensures
            r@ == self@,
    {
        let mut endpoints: Vec<Endpoint> = Vec::new();
        let mut i: usize = 0;
        while i < self.endpoints.len()
            invariant
                i <= self.endpoints.len(),
                endpoints@.len() == i,
                forall|j: int| 0 <= j < i ==> endpoints@[j]@ == self.endpoints@[j]@,
            decreases self.endpoints.len() - i,
        {
            endpoints.push(self.endpoints[i].copy());
            i += 1;
        }
        let r = PeerInfo { id: self.id, endpoints };
        assert(r@.endpoints =~= self@.endpoints);
        r
    }

    /// Whether `endpoint` is among the known endpoints.
    fn knows(&self, endpoint: &Endpoint) -> (r: bool)
        ensures
            r == self@.endpoints.contains(endpoint@),
    {
        let mut i: usize = 0;
        while i < self.endpoints.len()
            invariant
                i <= self.endpoints.len(),
                forall|j: int| 0 <= j < i ==> self.endpoints@[j]@ != endpoint@,
            decreases self.endpoints.len() - i,
        {
            if self.endpoints[i].same(endpoint) {
                assert(self@.endpoints[i as int] == endpoint@);
                return true;
            }
            i += 1;
        }
        false
    }

    /// Whether both records describe one peer.
    pub fn is_same_peer(&self, other: &PeerInfo) -> (r: bool)
        ensures
            r == same_peer(self@, other@),
    {
        if let Some(id) = self.id {
            if let Some(other_id) = other.id {
                if id == other_id {
                    return true;
                }
            }
        }
        let mut j: usize = 0;
        while j < other.endpoints.len()
            invariant
                j <= other.endpoints.len(),
                !(self.id is Some && self.id == other.id),
                forall|k: int| 0 <= k < j ==> !self@.endpoints.contains(#[trigger] other@.endpoints[k]),
            decreases other.endpoints.len() - j,
        {
            assert(other@.endpoints[j as int] == other.endpoints@[j as int]@);
            if self.knows(&other.endpoints[j]) {
                let ghost i = choose|i: int|
                    0 <= i < self@.endpoints.len() && self@.endpoints[i]
                        == other@.endpoints[j as int];
                assert(self@.endpoints[i] == other@.endpoints[j as int]);
                return true;
            }
            j += 1;
        }
        false
    }

    /// Whether both records hold exactly the same things.
    pub fn same_info(&self, other: &PeerInfo) -> (r: bool)
        ensures
            r == (self@ == other@),
    {
        let ids = match (self.id, other.id) {
            (Some(a), Some(b)) => a == b,
            (None, None) => true,
            _ => false,
        };
        if !ids || self.endpoints.len() != other.endpoints.len() {
            assert(self@.endpoints.len() == self.endpoints@.len());
            assert(other@.endpoints.len() == other.endpoints@.len());
            return false;
        }
        let mut i: usize = 0;
        while i < self.endpoints.len()
            invariant
                i <= self.endpoints.len(),
                self.endpoints.len() == other.endpoints.len(),
                forall|j: int| 0 <= j < i ==> self.endpoints@[j]@ == other.endpoints@[j]@,
            decreases self.endpoints.len() - i,
        {
            if !self.endpoints[i].same(&other.endpoints[i]) {
                assert(self@.endpoints[i as int] != other@.endpoints[i as int]);
                return false;
            }
            i += 1;
        }
        assert(self@.endpoints =~= other@.endpoints);
        true
    }

    /// Takes over what `other` knows and this record does not.
    pub fn merge(&mut self, other: PeerInfo)
        ensures
            final(self)@ == merged(old(self)@, other@),
    {
        if self.id.is_none() {
            self.id = other.id;
        }
        let ghost start = self@.endpoints;
        let ghost id = self.id;
        let mut j: usize = 0;
        while j < other.endpoints.len()
            invariant
                j <= other.endpoints.len(),
                self.id == id,
                self@.endpoints == merged_endpoints(start, other@.endpoints.take(j as int)),
            decreases other.endpoints.len() - j,
        {
            let ghost before = self@.endpoints;
            let ghost seen = other@.endpoints.take(j as int + 1);
            assert(seen.drop_last() =~= other@.endpoints.take(j as int));
            assert(seen.last() == other.endpoints@[j as int]@);
            if !self.knows(&other.endpoints[j]) {
                self.endpoints.push(other.endpoints[j].copy());
                assert(self@.endpoints =~= before.push(other.endpoints@[j as int]@));
            }
            j += 1;
        }
        assert(other@.endpoints.take(j as int) =~= other@.endpoints);
    }
}

} // verus!
