//! Announcing to trackers, tier by tier.

use crate::metainfo;
use crate::number;
use crate::proto::pex;
use crate::proto::tracker;
use crate::proto::tracker::{ResponseView, TrackerResponse};
use crate::text;
use crate::torrent::control;
use crate::torrent::control::{TrackerInfo, TrackerInfoView};
use crate::types;
use crate::types::{Endpoint, EndpointView, PeerId, PeerInfo, PeerInfoView, Sha1Hash};
use rand::seq::SliceRandom;
use vstd::prelude::*;

verus! {

/// How long to wait for the next announce where no tracker says, in seconds.
pub const DEFAULT_INTERVAL: u64 = 60;

/// The trackers of a torrent, and what they have said.
#[derive(Debug)]
pub struct Trackers {
    pub urls: Vec<Vec<String>>,
    pub info_hash: Sha1Hash,
    pub client_id: PeerId,
    pub interval: Option<u64>,
    pub min_interval: Option<u64>,
    pub seeders: Option<u64>,
    pub leechers: Option<u64>,
    pub peers: Vec<PeerInfo>,
    pub progress: tracker::Progress,
}

/// The trackers and what they have said.
#[verifier::ext_equal]
pub struct TrackersModel {
    pub urls: Seq<Seq<Seq<char>>>,
    pub info_hash: Sha1Hash,
    pub client_id: PeerId,
    pub interval: Option<u64>,
    pub min_interval: Option<u64>,
    pub seeders: Option<u64>,
    pub leechers: Option<u64>,
    pub peers: Seq<PeerInfoView>,
    pub progress: tracker::Progress,
}

impl View for Trackers {
    type V = TrackersModel;

    open spec fn view(&self) -> TrackersModel {
        TrackersModel {
            urls: metainfo::tier_views(self.urls@),
            info_hash: self.info_hash,
            client_id: self.client_id,
            interval: self.interval,
            min_interval: self.min_interval,
            seeders: self.seeders,
            leechers: self.leechers,
            peers: pex::info_views(self.peers@),
            progress: self.progress,
        }
    }
}

/// An announce to all tiers that is under way: the tier that it has come to, and
/// which of that tier's trackers so far have answered well.
#[derive(Debug)]
pub struct Round {
    pub tier: usize,
    pub answers: Vec<bool>,
}

/// An announce that is under way.
#[verifier::ext_equal]
pub struct RoundModel {
    pub tier: nat,
    pub answers: Seq<bool>,
}

impl View for Round {
    type V = RoundModel;

    open spec fn view(&self) -> RoundModel {
        RoundModel { tier: self.tier as nat, answers: self.answers@ }
    }
}

/// How a tracker is reached.
#[derive(Debug)]
pub enum Scheme {
    Http,
    Udp,
    /// It is not, for this reason.
    Unsupported(String),
}

/// How a tracker is reached.
#[verifier::ext_equal]
pub enum SchemeModel {
    Http,
    Udp,
    Unsupported(Seq<char>),
}

impl View for Scheme {
    type V = SchemeModel;

    open spec fn view(&self) -> SchemeModel {
        match self {
            Scheme::Http => SchemeModel::Http,
            Scheme::Udp => SchemeModel::Udp,
            Scheme::Unsupported(e) => SchemeModel::Unsupported(e@),
        }
    }
}

/// Where the first colon from `i` on stands, or the end of the text.
pub open spec fn colon_from(s: Seq<char>, i: int) -> int
    decreases s.len() - i,
{
    if i < 0 || i >= s.len() {
        s.len() as int
    } else if s[i] == ':' {
        i
    } else {
        colon_from(s, i + 1)
    }
}

/// How the tracker at a URL is reached: by what stands before the first colon.
pub open spec fn scheme_of(url: Seq<char>) -> SchemeModel {
    let name = url.take(colon_from(url, 0));
    if name == "http"@ || name == "https"@ {
        SchemeModel::Http
    } else if name == "udp"@ {
        SchemeModel::Udp
    } else {
        SchemeModel::Unsupported("Unsopported protocol "@ + name)
    }
}

/// How the tracker at a URL is reached.
pub fn scheme(url: &str) -> (r: Scheme)
    ensures
        r@ == scheme_of(url@),
{
    let chars = text::chars_of(url);
    let total = chars.len();
    let mut i: usize = 0;
    while i < total && chars[i] != ':'
        invariant
            i <= total,
            total == chars@.len(),
            chars@ == url@,
            colon_from(url@, 0) == colon_from(url@, i as int),
        decreases total - i,
    {
        i += 1;
    }
    let name = text::string_of(&chars, 0, i);
    assert(name@ =~= url@.take(colon_from(url@, 0)));
    if name == "http".to_owned() || name == "https".to_owned() {
        Scheme::Http
    } else if name == "udp".to_owned() {
        Scheme::Udp
    } else {
        let mut e = "Unsopported protocol ".to_owned();
        e.append(name.as_str());
        Scheme::Unsupported(e)
    }
}

/// Some tracker of the list has this URL.
pub open spec fn lists(infos: Seq<TrackerInfoView>, url: Seq<char>) -> bool {
    exists|i: int| 0 <= i < infos.len() && (#[trigger] infos[i]).url == url
}

/// The list with the first `n` trackers of a tier in it.
pub open spec fn tier_listed(
    infos: Seq<TrackerInfoView>,
    tier: nat,
    urls: Seq<Seq<char>>,
    n: nat,
) -> Seq<TrackerInfoView>
    decreases n,
{
    if n == 0 {
        infos
    } else {
        let before = tier_listed(infos, tier, urls, (n - 1) as nat);
        if lists(before, urls[n - 1]) {
            before
        } else {
            before.push(control::unheard(tier, urls[n - 1]))
        }
    }
}

/// The list with the trackers of the first `n` tiers in it.
pub open spec fn listed(
    infos: Seq<TrackerInfoView>,
    tiers: Seq<Seq<Seq<char>>>,
    n: nat,
) -> Seq<TrackerInfoView>
    decreases n,
{
    if n == 0 {
        infos
    } else {
        tier_listed(
            listed(infos, tiers, (n - 1) as nat),
            (n - 1) as nat,
            tiers[n - 1],
            tiers[n - 1].len(),
        )
    }
}

/// No two trackers of the list have the same URL.
pub open spec fn distinct_urls(infos: Seq<TrackerInfoView>) -> bool {
    forall|i: int, j: int|
        0 <= i < j < infos.len() ==> (#[trigger] infos[i]).url != (#[trigger] infos[j]).url
}

proof fn lemma_tier_listed(
    infos: Seq<TrackerInfoView>,
    tier: nat,
    urls: Seq<Seq<char>>,
    n: nat,
)
    requires
        distinct_urls(infos),
        n <= urls.len(),
    ensures
        distinct_urls(tier_listed(infos, tier, urls, n)),
        forall|k: int| 0 <= k < n ==> lists(tier_listed(infos, tier, urls, n), #[trigger] urls[k]),
        forall|url: Seq<char>|
            lists(infos, url) ==> #[trigger] lists(tier_listed(infos, tier, urls, n), url),
    decreases n,
{
    if n > 0 {
        lemma_tier_listed(infos, tier, urls, (n - 1) as nat);
        let before = tier_listed(infos, tier, urls, (n - 1) as nat);
        let after = tier_listed(infos, tier, urls, n);
        let url = urls[n - 1];
        if !lists(before, url) {
            assert forall|i: int| 0 <= i < before.len() implies (#[trigger] before[i]).url
                != url by {}
            assert(after[before.len() as int].url == url);
            assert forall|u: Seq<char>| lists(before, u) implies #[trigger] lists(after, u) by {
                let i = choose|i: int| 0 <= i < before.len() && (#[trigger] before[i]).url == u;
                assert(after[i].url == u);
            }
        }
    }
}

/// A list of trackers without doubles stays one without doubles, and then has
/// every tracker of every tier.
pub proof fn law_listed(infos: Seq<TrackerInfoView>, tiers: Seq<Seq<Seq<char>>>, n: nat)
    requires
        distinct_urls(infos),
        n <= tiers.len(),
    ensures
        distinct_urls(listed(infos, tiers, n)),
        forall|t: int, k: int|
            0 <= t < n && 0 <= k < tiers[t].len() ==> lists(
                listed(infos, tiers, n),
                #[trigger] tiers[t][k],
            ),
    decreases n,
{
    if n > 0 {
        law_listed(infos, tiers, (n - 1) as nat);
        lemma_tier_listed(
            listed(infos, tiers, (n - 1) as nat),
            (n - 1) as nat,
            tiers[n - 1],
            tiers[n - 1].len(),
        );
    }
}

/// Puts the URLs in random order, with rand's `SliceRandom::shuffle`. It only
/// exchanges elements; which order comes out is left to chance.
#[verifier::external_body]
fn shuffle(urls: &mut Vec<String>)
    ensures
        text::texts(final(urls)@).to_multiset() == text::texts(old(urls)@).to_multiset(),
{
    urls.as_mut_slice().shuffle(&mut rand::rng());
}

/// The tiers hold the same URLs, tier by tier.
pub open spec fn same_tiers(a: Seq<Seq<Seq<char>>>, b: Seq<Seq<Seq<char>>>) -> bool {
    &&& a.len() == b.len()
    &&& forall|t: int|
        0 <= t < a.len() ==> (#[trigger] a[t]).to_multiset() == b[t].to_multiset()
}

/// The larger of two numbers that may be missing.
pub open spec fn larger(a: Option<u64>, b: Option<u64>) -> Option<u64> {
    match (a, b) {
        (Some(x), Some(y)) => Some(
            if x >= y {
                x
            } else {
                y
            },
        ),
        (Some(x), None) => Some(x),
        (None, _) => b,
    }
}

/// The larger of two numbers that may be missing.
pub fn find_larger(a: Option<u64>, b: Option<u64>) -> (r: Option<u64>)
    ensures
        r == larger(a, b),
{
    match (a, b) {
        (Some(x), Some(y)) => if x >= y {
            a
        } else {
            b
        },
        (Some(_), None) => a,
        (None, _) => b,
    }
}

/// The first peer from `i` on that is the same as `p`, or the end of the list.
pub open spec fn first_same(peers: Seq<PeerInfoView>, p: PeerInfoView, i: int) -> int
    decreases peers.len() - i,
{
    if i < 0 || i >= peers.len() {
        peers.len() as int
    } else if types::same_peer(peers[i], p) {
        i
    } else {
        first_same(peers, p, i + 1)
    }
}

/// The peers with one more, merged into the first that is the same.
pub open spec fn joined_by(peers: Seq<PeerInfoView>, p: PeerInfoView) -> Seq<PeerInfoView> {
    let i = first_same(peers, p, 0);
    if i < peers.len() {
        peers.update(i, types::merged(peers[i], p))
    } else {
        peers.push(p)
    }
}

/// The peers with others, one after the other.
pub open spec fn joined_by_all(peers: Seq<PeerInfoView>, others: Seq<PeerInfoView>) -> Seq<
    PeerInfoView,
>
    decreases others.len(),
{
    if others.len() == 0 {
        peers
    } else {
        joined_by(joined_by_all(peers, others.drop_last()), others.last())
    }
}

proof fn lemma_first_same(peers: Seq<PeerInfoView>, p: PeerInfoView, i: int)
    requires
        0 <= i <= peers.len(),
    ensures
        i <= first_same(peers, p, i) <= peers.len(),
        first_same(peers, p, i) < peers.len() ==> types::same_peer(
            peers[first_same(peers, p, i)],
            p,
        ),
    decreases peers.len() - i,
{
    if i < peers.len() && !types::same_peer(peers[i], p) {
        lemma_first_same(peers, p, i + 1);
    }
}

/// Everything that is known of a peer is known of another.
pub open spec fn knows_all(a: PeerInfoView, b: PeerInfoView) -> bool {
    &&& b.id is Some ==> a.id is Some
    &&& forall|e: EndpointView| b.endpoints.contains(e) ==> #[trigger] a.endpoints.contains(e)
}

proof fn lemma_merged_endpoints(known: Seq<EndpointView>, other: Seq<EndpointView>)
    ensures
        forall|e: EndpointView|
            known.contains(e) || other.contains(e) ==> #[trigger] types::merged_endpoints(
                known,
                other,
            ).contains(e),
    decreases other.len(),
{
    if other.len() > 0 {
        lemma_merged_endpoints(known, other.drop_last());
        let before = types::merged_endpoints(known, other.drop_last());
        let after = types::merged_endpoints(known, other);
        assert forall|e: EndpointView|
            known.contains(e) || other.contains(e) implies #[trigger] after.contains(e) by {
            if e == other.last() {
                if !before.contains(e) {
                    assert(after[before.len() as int] == e);
                }
            } else {
                if !known.contains(e) {
                    let i = choose|i: int| 0 <= i < other.len() && other[i] == e;
                    assert(other.drop_last()[i] == e);
                }
                assert(before.contains(e));
                let k = choose|k: int| 0 <= k < before.len() && before[k] == e;
                assert(after[k] == e);
            }
        }
    }
}

/// No announce makes the client forget an endpoint of a peer, and every peer that
/// a tracker names is known afterwards.
pub proof fn law_peers_kept(peers: Seq<PeerInfoView>, others: Seq<PeerInfoView>)
    ensures
        joined_by_all(peers, others).len() >= peers.len(),
        forall|i: int|
            0 <= i < peers.len() ==> knows_all(
                #[trigger] joined_by_all(peers, others)[i],
                peers[i],
            ),
        forall|k: int|
            0 <= k < others.len() ==> exists|i: int|
                0 <= i < joined_by_all(peers, others).len() && knows_all(
                    #[trigger] joined_by_all(peers, others)[i],
                    #[trigger] others[k],
                ),
    decreases others.len(),
{
    if others.len() > 0 {
        let rest = others.drop_last();
        let p = others.last();
        law_peers_kept(peers, rest);
        let before = joined_by_all(peers, rest);
        let after = joined_by_all(peers, others);
        let at = first_same(before, p, 0);
        lemma_first_same(before, p, 0);
        if at < before.len() {
            lemma_merged_endpoints(before[at].endpoints, p.endpoints);
        }
        assert forall|i: int| 0 <= i < before.len() implies knows_all(
            #[trigger] after[i],
            before[i],
        ) by {}
        assert(knows_all(after[at], p));
        assert forall|i: int| 0 <= i < peers.len() implies knows_all(
            #[trigger] after[i],
            peers[i],
        ) by {
            assert(knows_all(before[i], peers[i]));
            assert(knows_all(after[i], before[i]));
        }
        assert forall|k: int| 0 <= k < others.len() implies exists|i: int|
            0 <= i < after.len() && knows_all(#[trigger] after[i], #[trigger] others[k]) by {
            if k < rest.len() {
                assert(rest[k] == others[k]);
                let i = choose|i: int|
                    0 <= i < before.len() && knows_all(#[trigger] before[i], rest[k]);
                assert(knows_all(after[i], before[i]));
                assert(knows_all(after[i], others[k]));
            } else {
                assert(knows_all(after[at], others[k]));
            }
        }
    } else {
        assert forall|i: int| 0 <= i < peers.len() implies knows_all(
            #[trigger] joined_by_all(peers, others)[i],
            peers[i],
        ) by {}
    }
}

impl TrackersModel {
    /// What a tracker says taken over: the shorter interval, and the larger of
    /// the other numbers.
    pub open spec fn updated(self, response: ResponseView) -> TrackersModel {
        TrackersModel {
            interval: Some(
                match self.interval {
                    Some(interval) if interval < response.interval => interval,
                    _ => response.interval,
                },
            ),
            min_interval: larger(response.min_interval, self.min_interval),
            seeders: larger(response.seeders, self.seeders),
            leechers: larger(response.leechers, self.leechers),
            peers: joined_by_all(self.peers, response.peers),
            ..self
        }
    }

    /// How long to wait for the next announce, in seconds.
    pub open spec fn wait(self) -> u64 {
        let interval = match self.interval {
            Some(interval) => interval,
            None => DEFAULT_INTERVAL,
        };
        match self.min_interval {
            Some(least) if least > interval => least,
            _ => interval,
        }
    }
}

/// The URLs whose answer was `ok`.
pub open spec fn picked(urls: Seq<Seq<char>>, answers: Seq<bool>, ok: bool) -> Seq<Seq<char>>
    decreases urls.len(),
{
    if urls.len() == 0 {
        Seq::empty()
    } else {
        let before = picked(urls.drop_last(), answers.drop_last(), ok);
        if answers.last() == ok {
            before.push(urls.last())
        } else {
            before
        }
    }
}

/// A tier after an announce: the trackers that answered well first.
pub open spec fn reordered(urls: Seq<Seq<char>>, answers: Seq<bool>) -> Seq<Seq<char>> {
    picked(urls, answers, true) + picked(urls, answers, false)
}

/// An announce loses no tracker of a tier and adds none.
pub proof fn law_reordered(urls: Seq<Seq<char>>, answers: Seq<bool>)
    requires
        urls.len() == answers.len(),
    ensures
        reordered(urls, answers).to_multiset() == urls.to_multiset(),
        reordered(urls, answers).len() == urls.len(),
{
    lemma_picked(urls, answers);
    let good = picked(urls, answers, true);
    let bad = picked(urls, answers, false);
    vstd::seq_lib::lemma_multiset_commutative(good, bad);
    reordered(urls, answers).to_multiset_ensures();
    urls.to_multiset_ensures();
}

proof fn lemma_picked(urls: Seq<Seq<char>>, answers: Seq<bool>)
    requires
        urls.len() == answers.len(),
    ensures
        picked(urls, answers, true).to_multiset().add(picked(urls, answers, false).to_multiset())
            == urls.to_multiset(),
    decreases urls.len(),
{
    if urls.len() > 0 {
        let rest = urls.drop_last();
        let others = answers.drop_last();
        lemma_picked(rest, others);
        let good = picked(rest, others, true);
        let bad = picked(rest, others, false);
        rest.to_multiset_ensures();
        good.to_multiset_ensures();
        bad.to_multiset_ensures();
        assert(rest.push(urls.last()) =~= urls);
        assert(picked(urls, answers, true).to_multiset().add(
            picked(urls, answers, false).to_multiset(),
        ) =~= urls.to_multiset());
    } else {
        assert(urls =~= Seq::empty());
        urls.to_multiset_ensures();
        assert(picked(urls, answers, true).to_multiset().add(
            picked(urls, answers, false).to_multiset(),
        ) =~= urls.to_multiset());
    }
}

/// The first tier from `t` on that has a tracker, or the end of the tiers.
pub open spec fn tier_from(urls: Seq<Seq<Seq<char>>>, t: nat) -> nat
    decreases urls.len() - t,
{
    if t >= urls.len() {
        urls.len()
    } else if urls[t as int].len() > 0 {
        t
    } else {
        tier_from(urls, t + 1)
    }
}

/// An announce that has come to a tracker, or to the end.
pub open spec fn under_way(urls: Seq<Seq<Seq<char>>>, round: RoundModel) -> bool {
    if round.tier < urls.len() {
        round.answers.len() < urls[round.tier as int].len()
    } else {
        round.tier == urls.len() && round.answers.len() == 0
    }
}

/// The tracker that an announce has come to.
pub open spec fn present(urls: Seq<Seq<Seq<char>>>, round: RoundModel) -> Seq<char> {
    urls[round.tier as int][round.answers.len() as int]
}

/// The tiers and the announce once the present tracker has answered.
pub open spec fn advanced(urls: Seq<Seq<Seq<char>>>, round: RoundModel, ok: bool) -> (
    Seq<Seq<Seq<char>>>,
    RoundModel,
) {
    let t = round.tier as int;
    let answers = round.answers.push(ok);
    if answers.len() < urls[t].len() {
        (urls, RoundModel { answers, ..round })
    } else {
        let urls = urls.update(t, reordered(urls[t], answers));
        (urls, RoundModel { tier: tier_from(urls, round.tier + 1), answers: Seq::empty() })
    }
}

proof fn lemma_tier_from(urls: Seq<Seq<Seq<char>>>, t: nat)
    requires
        t <= urls.len(),
    ensures
        t <= tier_from(urls, t) <= urls.len(),
        tier_from(urls, t) < urls.len() ==> urls[tier_from(urls, t) as int].len() > 0,
    decreases urls.len() - t,
{
    if t < urls.len() && urls[t as int].len() == 0 {
        lemma_tier_from(urls, t + 1);
    }
}

/// How many trackers are still to be asked.
pub open spec fn still_to_ask(urls: Seq<Seq<Seq<char>>>, round: RoundModel) -> int {
    trackers_from(urls, round.tier) - round.answers.len()
}

/// How many trackers the tiers from `t` on have.
pub open spec fn trackers_from(urls: Seq<Seq<Seq<char>>>, t: nat) -> nat
    decreases urls.len() - t,
{
    if t >= urls.len() {
        0
    } else {
        urls[t as int].len() + trackers_from(urls, t + 1)
    }
}

proof fn lemma_trackers_from(a: Seq<Seq<Seq<char>>>, b: Seq<Seq<Seq<char>>>, t: nat)
    requires
        a.len() == b.len(),
        forall|i: int| t <= i < a.len() ==> a[i] == b[i],
    ensures
        trackers_from(a, t) == trackers_from(b, t),
        trackers_from(a, tier_from(a, t)) == trackers_from(a, t),
    decreases a.len() - t,
{
    if t < a.len() {
        lemma_trackers_from(a, b, t + 1);
    }
}

/// An announce asks each tracker once: with each answer there is one tracker less
/// to ask, and when there is none left the announce is at its end. No answer
/// loses or adds a tracker.
pub proof fn law_round_advances(urls: Seq<Seq<Seq<char>>>, round: RoundModel, ok: bool)
    requires
        under_way(urls, round),
        round.tier < urls.len(),
    ensures
        ({
            let (after, next) = advanced(urls, round, ok);
            &&& under_way(after, next)
            &&& still_to_ask(after, next) == still_to_ask(urls, round) - 1
            &&& still_to_ask(after, next) == 0 <==> next.tier == after.len()
            &&& same_tiers(after, urls)
        }),
{
    let (after, next) = advanced(urls, round, ok);
    let t = round.tier as int;
    let answers = round.answers.push(ok);
    if answers.len() < urls[t].len() {
        assert(still_to_ask(after, next) >= 1);
    } else {
        law_reordered(urls[t], answers);
        lemma_tier_from(after, round.tier + 1);
        lemma_trackers_from(after, urls, round.tier + 1);
        assert forall|i: int| 0 <= i < after.len() implies (#[trigger] after[i]).to_multiset()
            == urls[i].to_multiset() by {}
    }
}

/// A list of trackers before an announce: those that are asked have not answered.
pub open spec fn unanswered(infos: Seq<TrackerInfoView>, urls: Seq<Seq<Seq<char>>>) -> Seq<
    TrackerInfoView,
> {
    infos.map_values(
        |t: TrackerInfoView|
            if asked(urls, t.url) {
                TrackerInfoView { succeeded: None, ..t }
            } else {
                t
            },
    )
}

/// Some tier has this URL.
pub open spec fn asked(urls: Seq<Seq<Seq<char>>>, url: Seq<char>) -> bool {
    exists|t: int| 0 <= t < urls.len() && (#[trigger] urls[t]).contains(url)
}

/// A list of trackers after the one at `url` has failed.
pub open spec fn failed(infos: Seq<TrackerInfoView>, url: Seq<char>) -> Seq<TrackerInfoView> {
    infos.map_values(
        |t: TrackerInfoView|
            if t.url == url {
                TrackerInfoView { succeeded: Some(false), ..t }
            } else {
                t
            },
    )
}

/// A list of trackers after the one at `url` has answered.
pub open spec fn answered(
    infos: Seq<TrackerInfoView>,
    url: Seq<char>,
    response: ResponseView,
) -> Seq<TrackerInfoView> {
    infos.map_values(
        |t: TrackerInfoView|
            if t.url == url {
                TrackerInfoView {
                    succeeded: Some(true),
                    seeders: as_size(response.seeders),
                    leechers: as_size(response.leechers),
                    interval: Some(response.interval),
                    min_interval: response.min_interval,
                    endpoints: Some(first_endpoints(response.peers)),
                    ..t
                }
            } else {
                t
            },
    )
}

/// A number that may be missing, as a size.
pub open spec fn as_size(n: Option<u64>) -> Option<usize> {
    match n {
        Some(n) => Some(n as usize),
        None => None,
    }
}

/// The first endpoint of each peer.
pub open spec fn first_endpoints(peers: Seq<PeerInfoView>) -> Seq<EndpointView> {
    peers.map_values(|p: PeerInfoView| p.endpoints[0])
}

/// The text of a number on a line of its own.
pub open spec fn number_line(name: Seq<char>, n: Option<u64>) -> Seq<char> {
    match n {
        Some(n) => name + number::decimal(n as nat) + "\n"@,
        None => Seq::empty(),
    }
}

/// The first `n` peers, each on a line of its own.
pub open spec fn peer_lines(peers: Seq<PeerInfoView>, n: nat) -> Seq<char>
    decreases n,
{
    if n == 0 {
        Seq::empty()
    } else {
        peer_lines(peers, (n - 1) as nat) + ("    "@ + types::peer_text(peers[n - 1]) + "\n"@)
    }
}

/// What the trackers have said, as text.
pub open spec fn summary(m: TrackersModel) -> Seq<char> {
    number_line(
        "Interval: "@,
        Some(
            match m.interval {
                Some(interval) => interval,
                None => DEFAULT_INTERVAL,
            },
        ),
    ) + number_line("Minimum interval: "@, m.min_interval) + number_line("Complete: "@, m.seeders)
        + number_line("Incomplete: "@, m.leechers) + "Peers:\n"@ + peer_lines(
        m.peers,
        m.peers.len(),
    )
}

/// Appends a number on a line of its own.
fn push_number_line(out: &mut String, name: &str, n: Option<u64>)
    ensures
        final(out)@ == old(out)@ + number_line(name@, n),
{
    if let Some(n) = n {
        out.append(name);
        number::push_decimal(out, n);
        out.append("\n");
    }
    assert(out@ =~= old(out)@ + number_line(name@, n));
}

/// Whether some tracker of the list has this URL.
fn is_listed(infos: &Vec<TrackerInfo>, url: &String) -> (r: bool)
    ensures
        r == lists(control::tracker_views(infos@), url@),
{
    let ghost all = control::tracker_views(infos@);
    let mut i: usize = 0;
    while i < infos.len()
        invariant
            i <= infos@.len(),
            all == control::tracker_views(infos@),
            forall|j: int| 0 <= j < i ==> (#[trigger] all[j]).url != url@,
        decreases infos@.len() - i,
    {
        assert(all[i as int] == infos@[i as int]@);
        if infos[i].url == *url {
            return true;
        }
        i += 1;
    }
    false
}

/// Lists the trackers of a tier.
fn list_tier(infos: &mut Vec<TrackerInfo>, tier: usize, urls: &Vec<String>)
    ensures
        control::tracker_views(final(infos)@) == tier_listed(
            control::tracker_views(old(infos)@),
            tier as nat,
            text::texts(urls@),
            urls@.len(),
        ),
{
    let ghost before = control::tracker_views(infos@);
    let ghost all = text::texts(urls@);
    let mut u: usize = 0;
    while u < urls.len()
        invariant
            u <= urls@.len(),
            all == text::texts(urls@),
            control::tracker_views(infos@) == tier_listed(before, tier as nat, all, u as nat),
        decreases urls@.len() - u,
    {
        assert(all[u as int] == urls@[u as int]@);
        let ghost so_far = control::tracker_views(infos@);
        if !is_listed(infos, &urls[u]) {
            infos.push(TrackerInfo::new(tier, urls[u].clone()));
            assert(control::tracker_views(infos@) =~= so_far.push(
                control::unheard(tier as nat, all[u as int]),
            ));
        }
        u += 1;
    }
}

/// The tiers with the URLs of each in random order.
fn shuffle_tiers(urls: Vec<Vec<String>>) -> (r: Vec<Vec<String>>)
    ensures
        same_tiers(metainfo::tier_views(r@), metainfo::tier_views(urls@)),
{
    let ghost before = metainfo::tier_views(urls@);
    let mut r = urls;
    let mut t: usize = 0;
    while t < r.len()
        invariant
            t <= r@.len(),
            same_tiers(metainfo::tier_views(r@), before),
        decreases r@.len() - t,
    {
        let ghost now = metainfo::tier_views(r@);
        let ghost tiers = r@;
        shuffle(&mut r[t]);
        proof {
            let after = metainfo::tier_views(r@);
            assert forall|i: int| 0 <= i < after.len() implies (#[trigger] after[i]).to_multiset()
                == before[i].to_multiset() by {
                assert(now[i].to_multiset() == before[i].to_multiset());
                if i == t {
                    assert(now[i] == text::texts(tiers[i]@));
                    assert(after[i] == text::texts(r@[i]@));
                } else {
                    assert(after[i] == now[i]);
                }
            }
        }
        t += 1;
    }
    r
}

/// A copy of a list of peer records.
pub fn copy_peers(peers: &Vec<PeerInfo>) -> (r: Vec<PeerInfo>)
    ensures
        pex::info_views(r@) == pex::info_views(peers@),
{
    let mut r: Vec<PeerInfo> = Vec::new();
    let mut i: usize = 0;
    while i < peers.len()
        invariant
            i <= peers@.len(),
            r@.len() == i,
            forall|j: int| 0 <= j < i ==> (#[trigger] r@[j])@ == peers@[j]@,
        decreases peers@.len() - i,
    {
        r.push(peers[i].copy());
        i += 1;
    }
    assert(pex::info_views(r@) =~= pex::info_views(peers@));
    r
}

/// The first endpoint of each peer.
fn copy_first_endpoints(peers: &Vec<PeerInfo>) -> (r: Vec<Endpoint>)
    requires
        forall|i: int|
            0 <= i < peers@.len() ==> (#[trigger] pex::info_views(peers@)[i]).endpoints.len() > 0,
    ensures
        types::endpoint_views(r@) == first_endpoints(pex::info_views(peers@)),
{
    let mut r: Vec<Endpoint> = Vec::new();
    let mut i: usize = 0;
    while i < peers.len()
        invariant
            i <= peers@.len(),
            forall|i: int|
                0 <= i < peers@.len() ==> (#[trigger] pex::info_views(peers@)[i]).endpoints.len()
                    > 0,
            r@.len() == i,
            forall|j: int| 0 <= j < i ==> (#[trigger] r@[j])@ == peers@[j]@.endpoints[0],
        decreases peers@.len() - i,
    {
        assert(pex::info_views(peers@)[i as int] == peers@[i as int]@);
        r.push(peers[i].endpoints[0].copy());
        i += 1;
    }
    assert(types::endpoint_views(r@) =~= first_endpoints(pex::info_views(peers@)));
    r
}

impl Trackers {
    /// The trackers in the given order; none of them has been asked.
    pub fn with_urls(client_id: PeerId, info_hash: Sha1Hash, urls: Vec<Vec<String>>) -> (r: Trackers)
        ensures
            r@ == (TrackersModel {
                urls: metainfo::tier_views(urls@),
                info_hash,
                client_id,
                interval: None,
                min_interval: None,
                seeders: None,
                leechers: None,
                peers: Seq::empty(),
                progress: tracker::Progress {
                    downloaded: 0,
                    left: 0,
                    uploaded: 0,
                    event: tracker::Event::Empty,
                },
            }),
    {
        let r = Trackers {
            urls,
            info_hash,
            client_id,
            interval: None,
            min_interval: None,
            seeders: None,
            leechers: None,
            peers: Vec::new(),
            progress: tracker::Progress::default(),
        };
        assert(r@.peers =~= Seq::empty());
        r
    }

    /// The trackers with those of each tier in random order. They are listed in
    /// `infos` in the given order.
    pub fn new(
        client_id: PeerId,
        info_hash: Sha1Hash,
        urls: Vec<Vec<String>>,
        infos: &mut Vec<TrackerInfo>,
    ) -> (r: Trackers)
        ensures
            control::tracker_views(final(infos)@) == listed(
                control::tracker_views(old(infos)@),
                metainfo::tier_views(urls@),
                urls@.len(),
            ),
            same_tiers(r@.urls, metainfo::tier_views(urls@)),
            r@.client_id == client_id,
            r@.info_hash == info_hash,
            r@.interval is None,
            r@.min_interval is None,
            r@.seeders is None,
            r@.leechers is None,
            r@.peers == Seq::<PeerInfoView>::empty(),
            r@.progress == (tracker::Progress {
                downloaded: 0,
                left: 0,
                uploaded: 0,
                event: tracker::Event::Empty,
            }),
    {
        let ghost before = control::tracker_views(infos@);
        let ghost tiers = metainfo::tier_views(urls@);
        let mut t: usize = 0;
        while t < urls.len()
            invariant
                t <= urls@.len(),
                tiers == metainfo::tier_views(urls@),
                control::tracker_views(infos@) == listed(before, tiers, t as nat),
            decreases urls@.len() - t,
        {
            assert(tiers[t as int] == text::texts(urls@[t as int]@));
            list_tier(infos, t, &urls[t]);
            t += 1;
        }
        Trackers::with_urls(client_id, info_hash, shuffle_tiers(urls))
    }

    /// Forgets what the trackers have said of the swarm.
    pub fn reset(&mut self)
        ensures
            final(self)@ == (TrackersModel {
                interval: None,
                min_interval: None,
                seeders: None,
                leechers: None,
                ..old(self)@
            }),
    {
        self.interval = None;
        self.min_interval = None;
        self.seeders = None;
        self.leechers = None;
    }

    /// How long to wait for the next announce, in seconds.
    pub fn wait(&self) -> (r: u64)
        ensures
            r == self@.wait(),
    {
        let interval = match self.interval {
            Some(interval) => interval,
            None => DEFAULT_INTERVAL,
        };
        match self.min_interval {
            Some(least) if least > interval => least,
            _ => interval,
        }
    }

    /// Takes over what a tracker says.
    pub fn update(&mut self, response: TrackerResponse)
        ensures
            final(self)@ == old(self)@.updated(response@),
    {
        let ghost before = self@;
        let ghost others = pex::info_views(response.peers@);
        self.interval = Some(
            match self.interval {
                Some(interval) if interval < response.interval => interval,
                _ => response.interval,
            },
        );
        self.min_interval = find_larger(response.min_interval, self.min_interval);
        self.seeders = find_larger(response.seeders, self.seeders);
        self.leechers = find_larger(response.leechers, self.leechers);
        let ghost known = self@;
        let mut k: usize = 0;
        assert(others.take(0) =~= Seq::empty());
        while k < response.peers.len()
            invariant
                k <= response.peers@.len(),
                others == pex::info_views(response.peers@),
                self@ == (TrackersModel {
                    peers: joined_by_all(before.peers, others.take(k as int)),
                    ..known
                }),
            decreases response.peers@.len() - k,
        {
            let ghost peers = self@.peers;
            let ghost p = others[k as int];
            proof {
                assert(others.take(k as int + 1).drop_last() =~= others.take(k as int));
                assert(others.take(k as int + 1).last() == p);
                assert(p == response.peers@[k as int]@);
            }
            let mut i: usize = 0;
            while i < self.peers.len() && !self.peers[i].is_same_peer(&response.peers[k])
                invariant
                    i <= self.peers@.len(),
                    k < response.peers@.len(),
                    peers == pex::info_views(self.peers@),
                    p == response.peers@[k as int]@,
                    first_same(peers, p, 0) == first_same(peers, p, i as int),
                decreases self.peers@.len() - i,
            {
                assert(peers[i as int] == self.peers@[i as int]@);
                i += 1;
            }
            if i < self.peers.len() {
                assert(peers[i as int] == self.peers@[i as int]@);
                self.peers[i].merge(response.peers[k].copy());
                assert(self@.peers =~= joined_by(peers, p));
            } else {
                self.peers.push(response.peers[k].copy());
                assert(self@.peers =~= joined_by(peers, p));
            }
            k += 1;
        }
        assert(others.take(k as int) =~= others);
    }

    /// Whether some tier has this URL.
    fn asks(&self, url: &String) -> (r: bool)
        ensures
            r == asked(self@.urls, url@),
    {
        let ghost all = self@.urls;
        let mut t: usize = 0;
        while t < self.urls.len()
            invariant
                t <= self.urls@.len(),
                all == metainfo::tier_views(self.urls@),
                forall|i: int| 0 <= i < t ==> !(#[trigger] all[i]).contains(url@),
            decreases self.urls@.len() - t,
        {
            let ghost tier = all[t as int];
            let mut u: usize = 0;
            assert(tier == text::texts(self.urls@[t as int]@));
            while u < self.urls[t].len()
                invariant
                    t < self.urls@.len(),
                    u <= self.urls@[t as int]@.len(),
                    all == metainfo::tier_views(self.urls@),
                    all == self@.urls,
                    tier == all[t as int],
                    tier == text::texts(self.urls@[t as int]@),
                    forall|j: int| 0 <= j < u ==> #[trigger] tier[j] != url@,
                decreases self.urls@[t as int]@.len() - u,
            {
                assert(tier[u as int] == self.urls@[t as int]@[u as int]@);
                if self.urls[t][u] == *url {
                    assert(all[t as int].contains(url@));
                    return true;
                }
                u += 1;
            }
            t += 1;
        }
        false
    }

    /// The first tier from `t` on that has a tracker.
    fn find_tier(&self, t: usize) -> (r: usize)
        requires
            t <= self.urls@.len(),
        ensures
            r == tier_from(self@.urls, t as nat),
    {
        let mut r = t;
        while r < self.urls.len() && self.urls[r].len() == 0
            invariant
                t <= r <= self.urls@.len(),
                tier_from(self@.urls, t as nat) == tier_from(self@.urls, r as nat),
            decreases self.urls@.len() - r,
        {
            assert(self@.urls[r as int] == text::texts(self.urls@[r as int]@));
            r += 1;
        }
        proof {
            if r < self.urls@.len() {
                assert(self@.urls[r as int] == text::texts(self.urls@[r as int]@));
            }
        }
        r
    }

    /// Begins an announce to all tiers.
    pub fn begin(&self, infos: &mut Vec<TrackerInfo>) -> (r: Round)
        ensures
            r@ == (RoundModel { tier: tier_from(self@.urls, 0), answers: Seq::empty() }),
            under_way(self@.urls, r@),
            control::tracker_views(final(infos)@) == unanswered(
                control::tracker_views(old(infos)@),
                self@.urls,
            ),
    {
        let ghost before = control::tracker_views(infos@);
        let ghost want = unanswered(before, self@.urls);
        let mut i: usize = 0;
        while i < infos.len()
            invariant
                i <= infos@.len(),
                infos@.len() == before.len(),
                want == unanswered(before, self@.urls),
                forall|j: int| 0 <= j < i ==> (#[trigger] infos@[j])@ == want[j],
                forall|j: int| i <= j < infos@.len() ==> (#[trigger] infos@[j])@ == before[j],
            decreases infos@.len() - i,
        {
            assert(infos@[i as int]@ == before[i as int]);
            if self.asks(&infos[i].url) {
                infos[i].succeeded = None;
            }
            assert(infos@[i as int]@ =~= want[i as int]);
            i += 1;
        }
        assert(control::tracker_views(infos@) =~= want);
        let r = Round { tier: self.find_tier(0), answers: Vec::new() };
        proof {
            lemma_tier_from(self@.urls, 0);
            assert(r@.answers =~= Seq::empty());
        }
        r
    }

    /// The tracker to ask next, and how it is reached; none at the end.
    pub fn next(&self, round: &Round) -> (r: Option<(String, Scheme)>)
        requires
            under_way(self@.urls, round@),
        ensures
            match r {
                Some((url, scheme)) => {
                    &&& round@.tier < self@.urls.len()
                    &&& url@ == present(self@.urls, round@)
                    &&& scheme@ == scheme_of(url@)
                },
                None => round@.tier == self@.urls.len(),
            },
    {
        if round.tier >= self.urls.len() {
            return None;
        }
        assert(self@.urls[round.tier as int] == text::texts(self.urls@[round.tier as int]@));
        let url = self.urls[round.tier][round.answers.len()].clone();
        let scheme = scheme(url.as_str());
        Some((url, scheme))
    }

    /// A tier after an announce.
    fn reorder(&mut self, t: usize, answers: &Vec<bool>)
        requires
            t < old(self).urls@.len(),
            answers@.len() == old(self)@.urls[t as int].len(),
        ensures
            final(self)@ == (TrackersModel {
                urls: old(self)@.urls.update(
                    t as int,
                    reordered(old(self)@.urls[t as int], answers@),
                ),
                ..old(self)@
            }),
    {
        let ghost tier = self@.urls[t as int];
        assert(tier == text::texts(self.urls@[t as int]@));
        let mut good: Vec<String> = Vec::new();
        let mut bad: Vec<String> = Vec::new();
        let mut u: usize = 0;
        proof {
            assert(tier.take(0) =~= Seq::empty());
            assert(text::texts(good@) =~= Seq::empty());
            assert(text::texts(bad@) =~= Seq::empty());
        }
        while u < answers.len()
            invariant
                u <= answers@.len(),
                t < self.urls@.len(),
                tier == text::texts(self.urls@[t as int]@),
                answers@.len() == tier.len(),
                text::texts(good@) == picked(tier.take(u as int), answers@.take(u as int), true),
                text::texts(bad@) == picked(tier.take(u as int), answers@.take(u as int), false),
            decreases answers@.len() - u,
        {
            let ghost so_good = text::texts(good@);
            let ghost so_bad = text::texts(bad@);
            proof {
                assert(tier.take(u as int + 1).drop_last() =~= tier.take(u as int));
                assert(answers@.take(u as int + 1).drop_last() =~= answers@.take(u as int));
                assert(tier[u as int] == self.urls@[t as int]@[u as int]@);
            }
            let url = self.urls[t][u].clone();
            let ghost shown = url@;
            if answers[u] {
                good.push(url);
                assert(text::texts(good@) =~= so_good.push(shown));
            } else {
                bad.push(url);
                assert(text::texts(bad@) =~= so_bad.push(shown));
            }
            u += 1;
        }
        proof {
            assert(tier.take(u as int) =~= tier);
            assert(answers@.take(u as int) =~= answers@);
        }
        let ghost first = text::texts(good@);
        let ghost last = text::texts(bad@);
        let mut b: usize = 0;
        assert(first + last.take(0) =~= first);
        while b < bad.len()
            invariant
                b <= bad@.len(),
                last == text::texts(bad@),
                text::texts(good@) == first + last.take(b as int),
            decreases bad@.len() - b,
        {
            let ghost so_good = text::texts(good@);
            good.push(bad[b].clone());
            proof {
                assert(text::texts(good@) =~= so_good.push(last[b as int]));
                assert(first + last.take(b as int + 1) =~= (first + last.take(b as int)).push(
                    last[b as int],
                ));
            }
            b += 1;
        }
        assert(last.take(b as int) =~= last);
        let ghost before = self@;
        self.urls[t] = good;
        assert(self@.urls =~= before.urls.update(t as int, reordered(tier, answers@)));
    }

    /// Takes the answer of the tracker that was asked, or its failure, and hands
    /// out all peers that are known now.
    pub fn settle(
        &mut self,
        round: &mut Round,
        reply: Result<TrackerResponse, String>,
        infos: &mut Vec<TrackerInfo>,
    ) -> (r: Vec<PeerInfo>)
        requires
            under_way(old(self)@.urls, old(round)@),
            old(round)@.tier < old(self)@.urls.len(),
            reply matches Ok(response) ==> response@.wf(),
        ensures
            ({
                let (urls, next) = advanced(old(self)@.urls, old(round)@, reply is Ok);
                let url = present(old(self)@.urls, old(round)@);
                &&& under_way(urls, next)
                &&& final(round)@ == next
                &&& match reply {
                    Ok(response) => {
                        &&& final(self)@ == TrackersModel { urls, ..old(self)@.updated(response@) }
                        &&& control::tracker_views(final(infos)@) == answered(
                            control::tracker_views(old(infos)@),
                            url,
                            response@,
                        )
                    },
                    Err(_) => {
                        &&& final(self)@ == TrackersModel { urls, ..old(self)@ }
                        &&& control::tracker_views(final(infos)@) == failed(
                            control::tracker_views(old(infos)@),
                            url,
                        )
                    },
                }
            }),
            pex::info_views(r@) == final(self)@.peers,
    {
        let ghost before = self@;
        let ghost start = round@;
        let tier = round.tier;
        proof {
            law_round_advances(before.urls, start, reply is Ok);
            assert(self@.urls[tier as int] == text::texts(self.urls@[tier as int]@));
        }
        let url = self.urls[tier][round.answers.len()].clone();
        let ok = reply.is_ok();
        match reply {
            Ok(response) => {
                note_answer(infos, &url, &response);
                self.update(response);
            },
            Err(_) => {
                note_failure(infos, &url);
            },
        }
        round.answers.push(ok);
        if round.answers.len() >= self.urls[tier].len() {
            assert(self@.urls[tier as int] == text::texts(self.urls@[tier as int]@));
            let num_tiers = self.urls.len();
            assert(tier < num_tiers);
            self.reorder(tier, &round.answers);
            round.tier = self.find_tier(tier + 1);
            round.answers = Vec::new();
            assert(round@.answers =~= Seq::empty());
        } else {
            assert(self@.urls[tier as int] == text::texts(self.urls@[tier as int]@));
        }
        copy_peers(&self.peers)
    }

    /// What the trackers have said, as text.
    pub fn to_text(&self) -> (r: String)
        ensures
            r@ == summary(self@),
    {
        let mut r = String::new();
        let interval = match self.interval {
            Some(interval) => interval,
            None => DEFAULT_INTERVAL,
        };
        push_number_line(&mut r, "Interval: ", Some(interval));
        assert(r@ =~= number_line("Interval: "@, Some(interval)));
        push_number_line(&mut r, "Minimum interval: ", self.min_interval);
        push_number_line(&mut r, "Complete: ", self.seeders);
        push_number_line(&mut r, "Incomplete: ", self.leechers);
        r.append("Peers:\n");
        let ghost start = r@;
        let ghost peers = self@.peers;
        let mut i: usize = 0;
        assert(r@ =~= start + peer_lines(peers, 0));
        while i < self.peers.len()
            invariant
                i <= self.peers@.len(),
                peers == pex::info_views(self.peers@),
                r@ == start + peer_lines(peers, i as nat),
            decreases self.peers@.len() - i,
        {
            assert(peers[i as int] == self.peers@[i as int]@);
            r.append("    ");
            let peer = self.peers[i].to_text();
            r.append(peer.as_str());
            r.append("\n");
            assert(r@ =~= start + peer_lines(peers, i as nat + 1));
            i += 1;
        }
        r
    }
}

/// Notes that the tracker at `url` has failed.
fn note_failure(infos: &mut Vec<TrackerInfo>, url: &String)
    ensures
        control::tracker_views(final(infos)@) == failed(
            control::tracker_views(old(infos)@),
            url@,
        ),
{
    let ghost before = control::tracker_views(infos@);
    let ghost want = failed(before, url@);
    let mut i: usize = 0;
    while i < infos.len()
        invariant
            i <= infos@.len(),
            infos@.len() == before.len(),
            want == failed(before, url@),
            forall|j: int| 0 <= j < i ==> (#[trigger] infos@[j])@ == want[j],
            forall|j: int| i <= j < infos@.len() ==> (#[trigger] infos@[j])@ == before[j],
        decreases infos@.len() - i,
    {
        assert(infos@[i as int]@ == before[i as int]);
        if infos[i].url == *url {
            infos[i].succeeded = Some(false);
        }
        assert(infos@[i as int]@ =~= want[i as int]);
        i += 1;
    }
    assert(control::tracker_views(infos@) =~= want);
}

/// Notes what the tracker at `url` has answered.
fn note_answer(infos: &mut Vec<TrackerInfo>, url: &String, response: &TrackerResponse)
    requires
        response@.wf(),
    ensures
        control::tracker_views(final(infos)@) == answered(
            control::tracker_views(old(infos)@),
            url@,
            response@,
        ),
{
    let ghost before = control::tracker_views(infos@);
    let ghost want = answered(before, url@, response@);
    let mut i: usize = 0;
    while i < infos.len()
        invariant
            i <= infos@.len(),
            infos@.len() == before.len(),
            response@.wf(),
            want == answered(before, url@, response@),
            forall|j: int| 0 <= j < i ==> (#[trigger] infos@[j])@ == want[j],
            forall|j: int| i <= j < infos@.len() ==> (#[trigger] infos@[j])@ == before[j],
        decreases infos@.len() - i,
    {
        assert(infos@[i as int]@ == before[i as int]);
        if infos[i].url == *url {
            infos[i].succeeded = Some(true);
            infos[i].seeders = match response.seeders {
                Some(n) => Some(n as usize),
                None => None,
            };
            infos[i].leechers = match response.leechers {
                Some(n) => Some(n as usize),
                None => None,
            };
            infos[i].interval = Some(response.interval);
            infos[i].min_interval = response.min_interval;
            infos[i].endpoints = Some(copy_first_endpoints(&response.peers));
        }
        assert(infos@[i as int]@ =~= want[i as int]);
        i += 1;
    }
    assert(control::tracker_views(infos@) =~= want);
}

/// What several trackers say is taken together: to come again after the shortest
/// of their intervals but not before the longest of their least ones, and
/// the largest of their counts.
pub proof fn law_answers_taken_together(m: TrackersModel, response: ResponseView)
    ensures
        ({
            let next = m.updated(response);
            let largest = |said: Option<u64>, known: Option<u64>, r: Option<u64>|
                {
                    &&& r == said || r == known
                    &&& said is Some ==> r is Some && r->0 >= said->0
                    &&& known is Some ==> r is Some && r->0 >= known->0
                };
            &&& next.interval matches Some(x) && x <= response.interval && (x == response.interval
                || m.interval == Some(x))
            &&& m.interval matches Some(y) ==> next.interval->0 <= y
            &&& largest(response.min_interval, m.min_interval, next.min_interval)
            &&& largest(response.seeders, m.seeders, next.seeders)
            &&& largest(response.leechers, m.leechers, next.leechers)
            &&& next.urls == m.urls && next.progress == m.progress
        }),
{
}

/// The next announce is made after the interval that the trackers gave, or a
/// minute where none did, but not before the least interval.
pub proof fn law_wait(m: TrackersModel)
    ensures
        m.min_interval matches Some(least) ==> m.wait() >= least,
        m.wait() >= match m.interval {
            Some(x) => x,
            None => 60,
        },
        m.wait() == match m.interval {
            Some(x) => x,
            None => 60,
        } || m.min_interval == Some(m.wait()),
{
}

/// After an announce to a tier, the trackers that answered well come before those
/// that did not, and neither change places among themselves: of two that
/// answered alike, the one that was asked first is still first.
pub proof fn law_good_trackers_first(
    urls: Seq<Seq<char>>,
    answers: Seq<bool>,
    i: int,
) -> (place: int)
    requires
        urls.len() == answers.len(),
        0 <= i < urls.len(),
    ensures
        0 <= place < urls.len(),
        reordered(urls, answers)[place] == urls[i],
        place == if answers[i] {
            alike_before(answers, i, true)
        } else {
            alike_before(answers, answers.len() as int, true) + alike_before(answers, i, false)
        },
{
    lemma_picked_place(urls, answers, i, answers[i]);
    lemma_picked_len(urls, answers, true);
    lemma_picked_len(urls, answers, false);
    law_reordered(urls, answers);
    let good = picked(urls, answers, true);
    if answers[i] {
        alike_before(answers, i, true)
    } else {
        assert(reordered(urls, answers)[good.len() + alike_before(answers, i, false)] == picked(
            urls,
            answers,
            false,
        )[alike_before(answers, i, false)]);
        good.len() + alike_before(answers, i, false)
    }
}

/// How many of the first `n` answers are `ok`.
pub open spec fn alike_before(answers: Seq<bool>, n: int, ok: bool) -> int
    decreases n,
{
    if n <= 0 {
        0
    } else {
        alike_before(answers, n - 1, ok) + if answers[n - 1] == ok {
            1int
        } else {
            0int
        }
    }
}

proof fn lemma_alike_prefix(answers: Seq<bool>, n: int, ok: bool)
    requires
        0 <= n < answers.len(),
    ensures
        alike_before(answers.drop_last(), n, ok) == alike_before(answers, n, ok),
    decreases n,
{
    if n > 0 {
        lemma_alike_prefix(answers, n - 1, ok);
    }
}

proof fn lemma_picked_len(urls: Seq<Seq<char>>, answers: Seq<bool>, ok: bool)
    requires
        urls.len() == answers.len(),
    ensures
        picked(urls, answers, ok).len() == alike_before(answers, answers.len() as int, ok),
    decreases urls.len(),
{
    if urls.len() > 0 {
        lemma_picked_len(urls.drop_last(), answers.drop_last(), ok);
        lemma_alike_prefix(answers, answers.len() - 1, ok);
    }
}

proof fn lemma_picked_place(urls: Seq<Seq<char>>, answers: Seq<bool>, i: int, ok: bool)
    requires
        urls.len() == answers.len(),
        0 <= i < urls.len(),
        answers[i] == ok,
    ensures
        0 <= alike_before(answers, i, ok) < picked(urls, answers, ok).len(),
        picked(urls, answers, ok)[alike_before(answers, i, ok)] == urls[i],
    decreases urls.len(),
{
    let n = urls.len() - 1;
    lemma_picked_len(urls.drop_last(), answers.drop_last(), ok);
    lemma_alike_prefix(answers, i, ok);
    if i < n {
        lemma_picked_place(urls.drop_last(), answers.drop_last(), i, ok);
    } else {
        lemma_alike_nonnegative(answers, i, ok);
    }
}

proof fn lemma_alike_nonnegative(answers: Seq<bool>, n: int, ok: bool)
    ensures
        alike_before(answers, n, ok) >= 0,
    decreases n,
{
    if n > 0 {
        lemma_alike_nonnegative(answers, n - 1, ok);
    }
}

/// A tracker's answer shows on that tracker alone: that it answered, and what it
/// said. So does its failure, which leaves what it said before.
pub proof fn law_answer_shown(
    infos: Seq<TrackerInfoView>,
    url: Seq<char>,
    response: ResponseView,
    i: int,
)
    requires
        0 <= i < infos.len(),
        response.seeders matches Some(n) ==> n <= usize::MAX,
        response.leechers matches Some(n) ==> n <= usize::MAX,
    ensures
        ({
            let good = answered(infos, url, response);
            let bad = failed(infos, url);
            &&& good.len() == infos.len() && bad.len() == infos.len()
            &&& infos[i].url != url ==> good[i] == infos[i] && bad[i] == infos[i]
            &&& infos[i].url == url ==> {
                &&& good[i].url == url && good[i].tier == infos[i].tier
                &&& good[i].succeeded == Some(true)
                &&& good[i].interval == Some(response.interval)
                &&& good[i].min_interval == response.min_interval
                &&& response.seeders is Some ==> good[i].seeders is Some && good[i].seeders->0
                    == response.seeders->0
                &&& response.seeders is None ==> good[i].seeders is None
                &&& response.leechers is Some ==> good[i].leechers is Some && good[i].leechers->0
                    == response.leechers->0
                &&& response.leechers is None ==> good[i].leechers is None
                &&& good[i].endpoints matches Some(e) && e.len() == response.peers.len()
                    && forall|p: int|
                    0 <= p < e.len() ==> #[trigger] e[p] == response.peers[p].endpoints[0]
                &&& bad[i] == TrackerInfoView { succeeded: Some(false), ..infos[i] }
            }
        }),
{
}

/// A tracker is reached by what its URL begins with, up to the first colon.
pub proof fn law_scheme(name: Seq<char>, rest: Seq<char>)
    requires
        !name.contains(':'),
    ensures
        name == "http"@ || name == "https"@ ==> scheme_of(name + seq![':'] + rest)
            == SchemeModel::Http,
        name == "udp"@ ==> scheme_of(name + seq![':'] + rest) == SchemeModel::Udp,
        name != "http"@ && name != "https"@ && name != "udp"@ ==> scheme_of(
            name + seq![':'] + rest,
        ) is Unsupported,
{
    let url = name + seq![':'] + rest;
    lemma_colon(name, rest, 0);
    assert(url.take(name.len() as int) =~= name);
    reveal_strlit("http");
    reveal_strlit("https");
    reveal_strlit("udp");
    assert("udp"@.len() == 3 && "http"@.len() == 4 && "https"@.len() == 5);
}

proof fn lemma_colon(name: Seq<char>, rest: Seq<char>, i: int)
    requires
        !name.contains(':'),
        0 <= i <= name.len(),
    ensures
        colon_from(name + seq![':'] + rest, i) == name.len(),
    decreases name.len() - i,
{
    let url = name + seq![':'] + rest;
    if i < name.len() {
        assert(url[i] == name[i]);
        assert(name.contains(name[i]));
        lemma_colon(name, rest, i + 1);
    } else {
        assert(url[i] == ':');
    }
}

/// Before an announce no tracker that is asked has answered yet, and what the
/// others have said stays.
pub proof fn law_announce_begins(infos: Seq<TrackerInfoView>, urls: Seq<Seq<Seq<char>>>, i: int)
    requires
        0 <= i < infos.len(),
    ensures
        ({
            let is_asked = exists|t: int, u: int|
                0 <= t < urls.len() && 0 <= u < urls[t].len() && #[trigger] urls[t][u]
                    == infos[i].url;
            &&& unanswered(infos, urls).len() == infos.len()
            &&& unanswered(infos, urls)[i] == TrackerInfoView {
                succeeded: if is_asked {
                    None
                } else {
                    infos[i].succeeded
                },
                ..infos[i]
            }
        }),
{
    let url = infos[i].url;
    if asked(urls, url) {
        let t = choose|t: int| 0 <= t < urls.len() && (#[trigger] urls[t]).contains(url);
        let u = choose|u: int| 0 <= u < urls[t].len() && urls[t][u] == url;
        assert(urls[t][u] == infos[i].url);
    }
    if exists|t: int, u: int|
        0 <= t < urls.len() && 0 <= u < urls[t].len() && #[trigger] urls[t][u] == infos[i].url {
        let (t, u) = choose|t: int, u: int|
            0 <= t < urls.len() && 0 <= u < urls[t].len() && #[trigger] urls[t][u] == infos[i].url;
        assert(urls[t].contains(url));
    }
}

/// Trackers are asked tier by tier and in the order of each tier, and each answer
/// is held to be that of the tracker that was asked: the tracker that was asked as
/// number `i` of a tier is, once the tier is done, among those that answered well
/// exactly where it did.
pub proof fn law_asked_in_order(
    urls: Seq<Seq<Seq<char>>>,
    round: RoundModel,
    answers: Seq<bool>,
    i: int,
) -> (place: int)
    requires
        round.tier < urls.len(),
        answers.len() == urls[round.tier as int].len(),
        0 <= i < answers.len(),
        round.answers == answers.take(i),
    ensures
        ({
            let tier = urls[round.tier as int];
            let last = RoundModel { answers: answers.drop_last(), ..round };
            let (after, next) = advanced(urls, last, answers.last());
            let good = alike_before(answers, answers.len() as int, true);
            &&& i == 0 ==> present(urls, round) == tier.first()
            &&& i + 1 < tier.len() ==> advanced(urls, round, answers[i]) == (
                urls,
                RoundModel { answers: answers.take(i + 1), ..round },
            )
            &&& 0 <= place < tier.len()
            &&& after[round.tier as int][place] == present(urls, round)
            &&& answers[i] <==> place < good
            &&& next.tier > round.tier
            &&& next.answers.len() == 0
            &&& forall|t: int| 0 <= t < urls.len() && t != round.tier ==> #[trigger] after[t]
                == urls[t]
        }),
{
    let tier = urls[round.tier as int];
    let last = RoundModel { answers: answers.drop_last(), ..round };
    assert(answers.drop_last().push(answers.last()) =~= answers);
    assert(answers.take(i).push(answers[i]) =~= answers.take(i + 1));
    let place = law_good_trackers_first(tier, answers, i);
    lemma_alike_monotone(answers, i, answers.len() as int);
    lemma_alike_nonnegative(answers, i, false);
    let (after, next) = advanced(urls, last, answers.last());
    lemma_tier_from(after, round.tier + 1);
    place
}

proof fn lemma_alike_monotone(answers: Seq<bool>, i: int, n: int)
    requires
        0 <= i < n <= answers.len(),
    ensures
        answers[i] ==> alike_before(answers, i, true) < alike_before(answers, n, true),
        alike_before(answers, i, true) <= alike_before(answers, n, true),
    decreases n,
{
    if i < n - 1 {
        lemma_alike_monotone(answers, i, n - 1);
    }
}

/// Each tracker is listed under the first tier that has it.
pub proof fn law_listed_tiers(tiers: Seq<Seq<Seq<char>>>, n: nat)
    requires
        n <= tiers.len(),
    ensures
        forall|i: int|
            0 <= i < listed(Seq::empty(), tiers, n).len() ==> in_first_tier(
                tiers,
                n as int,
                #[trigger] listed(Seq::empty(), tiers, n)[i],
            ),
    decreases n,
{
    if n > 0 {
        law_listed_tiers(tiers, (n - 1) as nat);
        let before = listed(Seq::empty(), tiers, (n - 1) as nat);
        law_listed(Seq::empty(), tiers, (n - 1) as nat);
        lemma_listed_tier(before, tiers, n - 1, tiers[n - 1].len());
    }
}

/// A tracker is listed under one of the first `n` tiers that has it, and no tier
/// before that has it.
pub open spec fn in_first_tier(
    tiers: Seq<Seq<Seq<char>>>,
    n: int,
    info: TrackerInfoView,
) -> bool {
    &&& info.tier < n
    &&& tiers[info.tier as int].contains(info.url)
    &&& forall|t: int| 0 <= t < info.tier ==> !(#[trigger] tiers[t]).contains(info.url)
}

proof fn lemma_listed_tier(
    before: Seq<TrackerInfoView>,
    tiers: Seq<Seq<Seq<char>>>,
    t: int,
    k: nat,
)
    requires
        0 <= t < tiers.len(),
        k <= tiers[t].len(),
        forall|i: int| 0 <= i < before.len() ==> in_first_tier(tiers, t, #[trigger] before[i]),
        forall|s: int, u: int|
            0 <= s < t && 0 <= u < tiers[s].len() ==> lists(before, #[trigger] tiers[s][u]),
    ensures
        ({
            let after = tier_listed(before, t as nat, tiers[t], k);
            &&& forall|i: int| 0 <= i < after.len() ==> in_first_tier(tiers, t + 1, #[trigger] after[i])
            &&& after.len() >= before.len()
            &&& forall|i: int| 0 <= i < before.len() ==> #[trigger] after[i] == before[i]
        }),
    decreases k,
{
    if k > 0 {
        lemma_listed_tier(before, tiers, t, (k - 1) as nat);
        let most = tier_listed(before, t as nat, tiers[t], (k - 1) as nat);
        let after = tier_listed(before, t as nat, tiers[t], k);
        let url = tiers[t][k - 1];
        if !lists(most, url) {
            let new = control::unheard(t as nat, url);
            assert(in_first_tier(tiers, t + 1, new)) by {
                assert forall|s: int| 0 <= s < t implies !(#[trigger] tiers[s]).contains(url) by {
                    if tiers[s].contains(url) {
                        let u = choose|u: int| 0 <= u < tiers[s].len() && tiers[s][u] == url;
                        assert(lists(before, tiers[s][u]));
                        let i = choose|i: int| 0 <= i < before.len() && (#[trigger] before[i]).url == url;
                        assert(most[i].url == url);
                    }
                }
            }
            assert forall|i: int| 0 <= i < after.len() implies in_first_tier(
                tiers,
                t + 1,
                #[trigger] after[i],
            ) by {
                if i < most.len() {
                    assert(after[i] == most[i]);
                }
            }
        }
    } else {
        let after = tier_listed(before, t as nat, tiers[t], k);
        assert forall|i: int| 0 <= i < after.len() implies in_first_tier(
            tiers,
            t + 1,
            #[trigger] after[i],
        ) by {
            assert(in_first_tier(tiers, t, before[i]));
        }
    }
}

} // verus!
