//! Peers in six bytes each: four of an address and two of a port.

use crate::number;
use crate::proto::pex;
use crate::types;
use crate::types::{Endpoint, EndpointView, PeerInfo, PeerInfoView};
use vstd::prelude::*;

verus! {

/// An address as it is written.
pub open spec fn address(s: Seq<u8>) -> Seq<char> {
    number::decimal(s[0] as nat).push('.') + number::decimal(s[1] as nat).push('.')
        + number::decimal(s[2] as nat).push('.') + number::decimal(s[3] as nat)
}

/// The peer at six bytes: it has no known identity and one endpoint.
pub open spec fn peer(s: Seq<u8>) -> PeerInfoView {
    PeerInfoView {
        id: None,
        endpoints: seq![
            EndpointView { host: address(s), port: number::be16_value(s.skip(4)) as u16 },
        ],
    }
}

/// The peers of a byte string.
pub open spec fn peers(s: Seq<u8>) -> Seq<PeerInfoView> {
    Seq::new(s.len() / 6, |i: int| peer(s.subrange(6 * i, 6 * i + 6)))
}

/// The address at `at`.
fn read_address(s: &[u8], at: usize) -> (r: String)
    requires
        at + 4 <= s@.len(),
    ensures
        r@ == address(s@.subrange(at as int, at + 4)),
{
    let mut r = String::new();
    number::push_decimal(&mut r, s[at] as u64);
    r.push('.');
    number::push_decimal(&mut r, s[at + 1] as u64);
    r.push('.');
    number::push_decimal(&mut r, s[at + 2] as u64);
    r.push('.');
    number::push_decimal(&mut r, s[at + 3] as u64);
    assert(r@ =~= address(s@.subrange(at as int, at + 4)));
    r
}

/// Reads the peers of a byte string.
pub fn read_peers(s: &[u8]) -> (r: Vec<PeerInfo>)
    ensures
        pex::info_views(r@) == peers(s@),
{
    let n = s.len() / 6;
    let mut r: Vec<PeerInfo> = Vec::new();
    let mut i: usize = 0;
    while i < n
        invariant
            i <= n,
            n == s@.len() / 6,
            s@.len() <= usize::MAX,
            r@.len() == i,
            forall|j: int| 0 <= j < i ==> (#[trigger] r@[j])@ == peers(s@)[j],
        decreases n - i,
    {
        let at = 6 * i;
        let ghost part = s@.subrange(6 * i, 6 * i + 6);
        let endpoint = Endpoint {
            host: read_address(s, at),
            port: number::read_be16(s, at + 4),
        };
        let mut endpoints: Vec<Endpoint> = Vec::new();
        let ghost shown = endpoint@;
        endpoints.push(endpoint);
        let info = PeerInfo { id: None, endpoints };
        proof {
            assert(s@.subrange(at as int, at + 4)[0] == part[0]);
            assert(part.skip(4) =~= s@.subrange(at + 4, at + 6));
            assert(address(part) =~= address(s@.subrange(at as int, at + 4)));
            assert(types::endpoint_views(info.endpoints@) =~= seq![shown]);
            assert(info@ =~= peer(part));
        }
        r.push(info);
        i += 1;
    }
    assert(pex::info_views(r@) =~= peers(s@));
    r
}

/// Four bytes of an address and a port, in six bytes. The port's larger half
/// comes first.
pub open spec fn written(ip: (u8, u8, u8, u8), port: u16) -> Seq<u8> {
    seq![ip.0, ip.1, ip.2, ip.3, (port / 256) as u8, (port % 256) as u8]
}

/// The list of several addresses and ports, six bytes for each.
pub open spec fn written_all(list: Seq<((u8, u8, u8, u8), u16)>) -> Seq<u8>
    decreases list.len(),
{
    if list.len() == 0 {
        Seq::empty()
    } else {
        written_all(list.drop_last()) + written(list.last().0, list.last().1)
    }
}

/// A peer is at an address and a port, and nothing else is known of it.
pub open spec fn is_at(p: PeerInfoView, ip: (u8, u8, u8, u8), port: u16) -> bool {
    let dot = seq!['.'];
    &&& p.id is None
    &&& p.endpoints.len() == 1
    &&& p.endpoints[0].port == port
    &&& p.endpoints[0].host == number::decimal(ip.0 as nat) + dot + number::decimal(ip.1 as nat)
        + dot + number::decimal(ip.2 as nat) + dot + number::decimal(ip.3 as nat)
}

/// Reading is the inverse of writing: the peers read from a list of addresses
/// and ports are at those addresses and ports, in order.
pub proof fn law_compact_round_trip(list: Seq<((u8, u8, u8, u8), u16)>)
    ensures
        written_all(list).len() == 6 * list.len(),
        peers(written_all(list)).len() == list.len(),
        forall|i: int|
            0 <= i < list.len() ==> is_at(
                #[trigger] peers(written_all(list))[i],
                list[i].0,
                list[i].1,
            ),
    decreases list.len(),
{
    if list.len() > 0 {
        let rest = list.drop_last();
        let last = list.last();
        let a = written_all(rest);
        let b = written(last.0, last.1);
        law_compact_round_trip(rest);
        law_compact_concat(a, b);
        lemma_one_peer(last.0, last.1);
        let all = peers(written_all(list));
        assert forall|i: int| 0 <= i < list.len() implies is_at(
            #[trigger] all[i],
            list[i].0,
            list[i].1,
        ) by {
            if i < rest.len() {
                assert(all[i] == peers(a)[i]);
                assert(rest[i] == list[i]);
            } else {
                assert(all[i] == peers(b)[0]);
            }
        }
    }
}

proof fn lemma_one_peer(ip: (u8, u8, u8, u8), port: u16)
    ensures
        peers(written(ip, port)).len() == 1,
        is_at(peers(written(ip, port))[0], ip, port),
{
    let s = written(ip, port);
    assert(s.subrange(0, 6) =~= s);
    assert(s.skip(4) =~= seq![(port / 256) as u8, (port % 256) as u8]);
    let host = address(s);
    let dot = seq!['.'];
    assert(host =~= number::decimal(ip.0 as nat) + dot + number::decimal(ip.1 as nat) + dot
        + number::decimal(ip.2 as nat) + dot + number::decimal(ip.3 as nat));
}

/// The peers of two lists, one after the other, are those of the first and then
/// those of the second.
pub proof fn law_compact_concat(a: Seq<u8>, b: Seq<u8>)
    requires
        a.len() % 6 == 0,
    ensures
        peers(a + b) == peers(a) + peers(b),
{
    let n = a.len() / 6;
    assert(a.len() == 6 * n);
    assert((a + b).len() / 6 == n + b.len() / 6);
    assert forall|i: int| 0 <= i < peers(a + b).len() implies #[trigger] peers(a + b)[i] == (peers(
        a,
    ) + peers(b))[i] by {
        if i < n {
            assert((a + b).subrange(6 * i, 6 * i + 6) =~= a.subrange(6 * i, 6 * i + 6));
        } else {
            let j = i - n;
            assert((a + b).subrange(6 * i, 6 * i + 6) =~= b.subrange(6 * j, 6 * j + 6));
        }
    }
    assert(peers(a + b) =~= peers(a) + peers(b));
}

} // verus!
