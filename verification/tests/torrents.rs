use sha1::Digest;
use victoria::proto::bit_torrent::{BitTorrent, Message};
use victoria::proto::metadata::MetadataMessage;
use victoria::proto::pex::PEXMessage;
use victoria::proto::tracker::TrackerResponse;
use victoria::str_map::StrMap;
use victoria::torrent::control::{Command, TrackerInfo};
use victoria::torrent::magnet::{is_magnet, Magnet};
use victoria::torrent::model::DiscoveryMechanism;
use victoria::torrent::peer::{Peer, PeerState};
use victoria::torrent::transfer::Pending;
use victoria::torrent::{Action, Event, Torrent, TorrentError};
use victoria::tracker::{scheme, Scheme, Trackers};
use victoria::types::{Endpoint, PeerId, PeerInfo, Sha1Hash};

const CLIENT: PeerId = PeerId { bytes: [9; 20] };
const A: PeerId = PeerId { bytes: [1; 20] };
const B: PeerId = PeerId { bytes: [2; 20] };

fn digest(data: &[u8]) -> [u8; 20] {
    sha1::Sha1::digest(data).into()
}

/// Metadata of two blocks and a bit.
fn info() -> Vec<u8> {
    let pieces = 1_700;
    let mut info = format!(
        "d6:lengthi{}e4:name4:test12:piece lengthi16384e6:pieces{}:",
        pieces * 16_384,
        pieces * 20
    )
    .into_bytes();
    info.extend(vec![7u8; pieces * 20]);
    info.extend(b"e");
    info
}

fn hex(bytes: &[u8]) -> String {
    bytes.iter().map(|b| format!("{b:02x}")).collect()
}

fn magnet() -> Torrent {
    let url = format!(
        "magnet:?xt=urn:btih:{}&dn=My+torrent&tr=udp%3A%2F%2Ftracker%3A1",
        hex(&digest(&info()))
    );
    Torrent::from_magnet(&url, CLIENT).unwrap().0
}

fn peer_info(host: &str) -> PeerInfo {
    PeerInfo { id: None, endpoints: vec![Endpoint { host: host.to_owned(), port: 1 }] }
}

fn connection(id: PeerId, host: &str) -> Event {
    let bit_torrent =
        BitTorrent { name: host.to_owned(), id, supports_fast: true, supports_dht: false };
    Event::Connection(bit_torrent, peer_info(host), None)
}

fn extension_handshake(id: PeerId, metadata_size: Option<usize>) -> Event {
    let mut extensions = StrMap::new();
    extensions.insert("ut_metadata".to_owned(), 3);
    let message = Message::ExtensionHandshake {
        extensions,
        client: Some("test client".to_owned()),
        max_requests: None,
        metadata_size,
    };
    Event::Message(id, message)
}

fn metadata(id: PeerId, message: MetadataMessage) -> Event {
    Event::Message(id, Message::Metadata(message))
}

fn sent(torrent: &mut Torrent) -> Vec<(u8, String)> {
    torrent
        .take_outboxes()
        .into_iter()
        .flat_map(|(id, messages)| {
            messages.into_iter().map(move |m| (id.bytes[0], format!("{m:?}")))
        })
        .collect()
}

fn asked(id: u8, index: usize) -> (u8, String) {
    (id, format!("{:?}", Message::Metadata(MetadataMessage::Request { index })))
}

#[test]
fn magnet_links_are_told_from_paths() {
    assert!(is_magnet("magnet:?xt=x"));
    assert!(!is_magnet("magnet:"));
    assert!(!is_magnet("/tmp/x.torrent"));
}

#[test]
fn magnet_links_are_read_in_order() {
    let hash = "0".repeat(38) + "ff";
    let url = format!("magnet:?tr=early&xt=urn:btih:{hash}&x=y&dn=a%20b&tr=one&tr=two");
    let magnet = Magnet::from_url(&url).unwrap();
    assert_eq!(magnet.display_name, "a b");
    assert_eq!(magnet.trackers, ["one", "two"]);
    assert_eq!(magnet.info_hash.bytes[19], 0xff);
    assert!(Magnet::from_url(&format!("magnet:?dn=x&xt=urn:btih:{hash}")).is_none());
    assert!(Magnet::from_url("magnet:?xt=urn:btih:zz&dn=x").is_none());
    assert!(Magnet::from_url("magnet:?dn=x").is_none());
    assert!(Magnet::from_url("not a link").is_none());
    let pairs = vec![
        ("xt".to_owned(), format!("urn:btih:{hash}")),
        ("dn".to_owned(), "n".to_owned()),
    ];
    let magnet = Magnet::from_pairs(&pairs).unwrap();
    assert_eq!(magnet.display_name, "n");
    assert!(magnet.trackers.is_empty());
}

#[test]
fn magnets_start_without_metadata() {
    let torrent = magnet();
    assert_eq!(torrent.progress.display_name, "My torrent");
    assert_eq!(torrent.metadata.num_blocks(), 0);
    assert!(torrent.transfer.is_none() && torrent.is_settled());
    assert_eq!(torrent.progress.trackers[0].url, "udp://tracker:1");
}

#[test]
fn torrent_files_start_with_metadata() {
    let info = info();
    let file = [b"d8:announce6:http:x4:info".as_slice(), &info, b"e"].concat();
    let (mut torrent, trackers, metadata) = Torrent::from_torrent_file(&file, CLIENT).unwrap();
    assert_eq!(torrent.progress.display_name, "test");
    assert!(torrent.metainfo.info_hash.bytes == digest(&info));
    assert!(torrent.metadata.is_complete());
    assert_eq!(trackers.urls, [["http:x".to_owned()]]);
    torrent.start_transfer(metadata, None);
    assert!(torrent.is_settled());
    assert_eq!(torrent.transfer.as_ref().unwrap().announced.left, 1_700 * 16_384);
    assert_eq!(
        Torrent::from_torrent_file(b"de", CLIENT).err().as_deref(),
        Some("Missing key info")
    );
    assert_eq!(
        Torrent::from_torrent_file(b"d4:infodee", CLIENT).err().as_deref(),
        Some("Missing key name")
    );
}

#[test]
fn peers_are_tried_three_times() {
    let mut torrent = magnet();
    let info = peer_info("host");
    for attempt in 1..=3 {
        torrent.discover(&info, DiscoveryMechanism::Tracker);
        assert_eq!(torrent.discovery_attempts[0].num_attempts, attempt);
        assert_eq!(torrent.take_connects().len(), 1);
    }
    torrent.discover(&info, DiscoveryMechanism::Tracker);
    assert!(torrent.discovery_attempts.is_empty());
    assert!(torrent.take_connects().is_empty());
}

#[test]
fn known_peers_are_left_alone() {
    let mut torrent = magnet();
    torrent.handle_event(connection(A, "host"), 0).unwrap();
    torrent.handle_event(Event::Tracker(vec![peer_info("host"), peer_info("other")]), 0).unwrap();
    let connects = torrent.take_connects();
    assert_eq!(connects.len(), 1);
    assert_eq!(connects[0].0.to_text(), "other:1");
    assert_eq!(torrent.progress.num_discovery_attempts, 1);
}

#[test]
fn connections_make_peers() {
    let mut torrent = magnet();
    torrent.discover(&peer_info("host"), DiscoveryMechanism::PEX);
    torrent.handle_event(connection(A, "host"), 0).unwrap();
    assert!(torrent.discovery_attempts.is_empty());
    assert_eq!((torrent.progress.num_peers, torrent.progress.num_connected_peers), (1, 1));
    let shown = &torrent.progress.peers.entries[0].1;
    assert!(shown.id == A && shown.supports_fast);
    assert_eq!(shown.endpoints[0].to_text(), "host:1");
    torrent.handle_event(connection(A, "second"), 0).unwrap();
    assert_eq!(torrent.peers.entries.len(), 1);
    assert_eq!(torrent.peers.entries[0].1.info.to_text(), "host:1, second:1");
}

#[test]
fn lost_peers_are_reconnected_to_ever_later() {
    let mut torrent = magnet();
    torrent.handle_event(connection(A, "host"), 0).unwrap();
    torrent.handle_event(Event::Disconnection(A, "gone".to_owned()), 1_000).unwrap();
    assert_eq!(torrent.progress.num_connected_peers, 0);
    assert_eq!(torrent.progress.peers.entries[0].1.errors, ["gone"]);
    torrent.tick(6_000);
    assert!(torrent.take_connects().is_empty());
    torrent.tick(6_001);
    let connects = torrent.take_connects();
    assert!(connects.len() == 1 && connects[0].1 == Some(A));
    torrent.tick(60_000);
    assert!(torrent.take_connects().is_empty());
    let info = connects[0].0.copy();
    torrent
        .handle_event(Event::ConnectionFailure(info.copy(), "no".to_owned(), Some(A)), 60_000)
        .unwrap();
    torrent.tick(70_000);
    assert!(torrent.take_connects().is_empty());
    torrent.tick(70_001);
    assert_eq!(torrent.take_connects().len(), 1);
    let bit_torrent =
        BitTorrent { name: String::new(), id: A, supports_fast: true, supports_dht: false };
    torrent.handle_event(Event::Connection(bit_torrent, info, Some(A)), 71_000).unwrap();
    assert_eq!(torrent.progress.num_connected_peers, 1);
}

#[test]
fn exchanged_peers_are_tried() {
    let mut torrent = magnet();
    torrent.handle_event(connection(A, "host"), 0).unwrap();
    let pex = PEXMessage { added: vec![peer_info("x"), peer_info("y")], dropped: vec![] };
    torrent.handle_event(Event::Message(A, Message::PEX(pex)), 0).unwrap();
    assert_eq!(torrent.take_connects().len(), 2);
    assert_eq!(
        torrent.statistics(),
        "    Discovery attemps:\n        Tracker: 0\n        PEX: 2"
    );
}

#[test]
fn metadata_is_fetched_and_starts_the_transfer() {
    let info = info();
    let mut torrent = magnet();
    torrent.handle_event(connection(A, "a"), 0).unwrap();
    torrent.handle_event(extension_handshake(A, Some(info.len())), 0).unwrap();
    assert_eq!(torrent.progress.peers.entries[0].1.client.as_deref(), Some("test client"));
    assert_eq!(torrent.metadata.num_blocks(), 3);
    assert_eq!(sent(&mut torrent), [asked(1, 0), asked(1, 1), asked(1, 2)]);
    torrent.handle_event(Event::Message(A, Message::HaveAll), 0).unwrap();

    let data = |index: usize| MetadataMessage::Data {
        index,
        piece: info[index * 16_384..((index + 1) * 16_384).min(info.len())].to_vec(),
        total_size: info.len(),
    };
    for index in [0, 1] {
        let action = torrent.handle_event(metadata(A, data(index)), 0).unwrap();
        assert!(matches!(action, Action::Nothing));
    }
    assert_eq!(torrent.progress.metadata_bitfield.as_bytes(), &[0xc0]);
    torrent.tick(500);
    assert_eq!(torrent.progress.metadata_down_speed, 2 * 16_384);
    let action = torrent.handle_event(metadata(A, data(2)), 0).unwrap();
    let metadata = match action {
        Action::Load(metadata) => metadata,
        other => panic!("{other:?}"),
    };
    assert_eq!(metadata.num_pieces, 1_700);
    torrent.start_transfer(metadata, None);
    let mut steps = 0;
    while !torrent.is_settled() {
        assert!(torrent.has_room_to_resume());
        assert!(matches!(torrent.resume(0), Ok(Pending::Nothing)));
        steps += 1;
    }
    assert_eq!(steps, 2);
    let connection = &torrent.transfer.as_ref().unwrap().connections.entries[0].1;
    assert!(connection.has_piece(1_699));
    assert_eq!(sent(&mut torrent).len(), 2);
}

#[test]
fn wrong_metadata_is_an_error() {
    let bytes = b"de".to_vec();
    let url = format!("magnet:?xt=urn:btih:{}&dn=x", hex(&digest(&bytes)));
    let mut torrent = Torrent::from_magnet(&url, CLIENT).unwrap().0;
    torrent.handle_event(connection(A, "a"), 0).unwrap();
    torrent.metadata.set_length_and_reset(2);
    let data = MetadataMessage::Data { index: 0, piece: bytes, total_size: 2 };
    match torrent.handle_event(metadata(A, data), 0) {
        Err(TorrentError::Metadata(e)) => {
            assert_eq!(e, "Error parsing metadata: Missing key name")
        }
        other => panic!("{other:?}"),
    }
    assert!(torrent.metadata.is_complete() && torrent.transfer.is_none());
    assert_eq!(torrent.peers.entries[0].1.downloaded_metadata, 1);
}

#[test]
fn peers_without_an_identity_come_back_before_a_transfer() {
    let mut torrent = magnet();
    torrent.handle_event(connection(A, "host"), 0).unwrap();
    torrent.handle_event(Event::Disconnection(A, "gone".to_owned()), 0).unwrap();
    let bit_torrent =
        BitTorrent { name: String::new(), id: A, supports_fast: true, supports_dht: false };
    let back = Event::Connection(bit_torrent, peer_info("host"), Some(A));
    torrent.handle_event(back, 1).unwrap();
    assert_eq!(torrent.progress.num_connected_peers, 1);
}

#[test]
fn refused_and_late_metadata_is_asked_of_others() {
    let mut torrent = magnet();
    torrent.handle_event(connection(A, "a"), 0).unwrap();
    torrent.handle_event(connection(B, "b"), 0).unwrap();
    torrent.handle_event(extension_handshake(A, Some(2 * 16_384)), 0).unwrap();
    sent(&mut torrent);
    torrent.handle_event(extension_handshake(B, None), 0).unwrap();
    torrent
        .handle_event(metadata(A, MetadataMessage::Reject { index: 1 }), 0)
        .unwrap();
    assert_eq!(sent(&mut torrent), [asked(2, 1)]);
    assert_eq!(torrent.peers.entries[0].1.sent_metadata_requests, 1);
    assert!(torrent.has_room_for_tick());
    torrent.tick(5_001);
    assert_eq!(torrent.peers.entries[0].1.sent_metadata_requests, 1);
    assert_eq!(torrent.peers.entries[1].1.sent_metadata_requests, 1);
    assert_eq!(sent(&mut torrent), [asked(1, 0), asked(2, 1)]);
}

#[test]
fn metadata_is_served() {
    let info = info();
    let file = [b"d4:info".as_slice(), &info, b"e"].concat();
    let (mut torrent, _, _) = Torrent::from_torrent_file(&file, CLIENT).unwrap();
    torrent.handle_event(connection(A, "a"), 0).unwrap();
    torrent.handle_event(metadata(A, MetadataMessage::Request { index: 2 }), 0).unwrap();
    torrent.handle_event(metadata(A, MetadataMessage::Request { index: 3 }), 0).unwrap();
    let expected = [
        MetadataMessage::Data {
            index: 2,
            piece: info[2 * 16_384..].to_vec(),
            total_size: 3,
        },
        MetadataMessage::Reject { index: 3 },
    ]
    .map(|m| (1, format!("{:?}", Message::Metadata(m))));
    assert_eq!(sent(&mut torrent), expected);
}

#[test]
fn the_transfer_gets_its_messages() {
    let info = info();
    let file = [b"d4:info".as_slice(), &info, b"e"].concat();
    let (mut torrent, _, metadata) = Torrent::from_torrent_file(&file, CLIENT).unwrap();
    torrent.start_transfer(metadata, None);
    torrent.handle_event(connection(A, "a"), 0).unwrap();
    torrent.handle_event(Event::Message(A, Message::HaveAll), 0).unwrap();
    let unchoke = Event::Message(A, Message::Choked(false));
    assert!(torrent.has_room(&unchoke));
    assert!(matches!(torrent.handle_event(unchoke, 0), Ok(Action::Disk(Pending::Nothing))));
    assert_eq!(sent(&mut torrent).len(), 4);
    let bad = Event::Message(A, Message::Have { index: 1_700 });
    assert!(matches!(torrent.handle_event(bad, 0), Err(TorrentError::Transfer(_))));
    let unknown = Event::Message(B, Message::Have { index: 1_700 });
    assert!(matches!(torrent.handle_event(unknown, 0), Ok(Action::Nothing)));
    let (status, reports) = torrent.tick(1_000);
    assert!(status.contains("Tracker: 0") && reports.len() == 1);
    assert!(torrent.progress.peers.entries[0].1.connection.is_some());
    torrent.handle_event(Event::Disconnection(A, String::new()), 0).unwrap();
    assert!(torrent.progress.peers.entries[0].1.connection.is_none());
    assert!(torrent.transfer.as_ref().unwrap().connections.entries.is_empty());
    torrent.handle_command(Command::Pause);
}

#[test]
fn peers_count_their_requests() {
    let mut peer = Peer::new(peer_info("x"), true, true);
    assert!(peer.is_connected() && !peer.can_request_metadata());
    let mut extensions = StrMap::new();
    extensions.insert("ut_metadata".to_owned(), 1);
    peer.receive_extension_handshake(None, &extensions);
    for index in 0..4 {
        assert!(peer.can_request_metadata());
        peer.request_metadata(index);
    }
    assert!(!peer.can_request_metadata());
    peer.timeout_metadata(1);
    peer.reject_metadata();
    peer.receive_metadata(true);
    assert_eq!(peer.sent_metadata_requests, 1);
    peer.sub_sent_metadata_requests(9);
    assert_eq!(peer.sent_metadata_requests, 0);
    assert_eq!(peer.downloaded_metadata, 1);
    peer.reset_statistics();
    assert_eq!(peer.downloaded_metadata, 0);
    assert_eq!(peer.take_outbox().len(), 4);
}

#[test]
fn backing_off_doubles_the_wait() {
    let mut peer = Peer::new(peer_info("x"), true, true);
    peer.queue_transfer_message(Message::HaveAll);
    assert_eq!(peer.take_initial_messages().unwrap().len(), 1);
    peer.disconnect("e".to_owned(), 0);
    assert!(peer.take_initial_messages().is_none());
    assert!(!peer.try_reconnect(5_000) && peer.try_reconnect(5_001) && !peer.try_reconnect(9_999));
    peer.back_off(6_000);
    assert!(matches!(
        peer.state,
        PeerState::Disconnected { at: 6_000, interval: 10_000, reconnecting: false }
    ));
    assert!(!peer.try_reconnect(16_000) && peer.try_reconnect(16_001));
    peer.reconnect();
    assert!(peer.is_connected());
}

fn trackers(tiers: &[&[&str]]) -> (Trackers, Vec<TrackerInfo>) {
    let urls = tiers
        .iter()
        .map(|t| t.iter().map(|u| u.to_string()).collect())
        .collect();
    let mut infos = Vec::new();
    let trackers = Trackers::new(CLIENT, Sha1Hash { bytes: [3; 20] }, urls, &mut infos);
    (trackers, infos)
}

fn response(interval: u64, hosts: &[&str]) -> TrackerResponse {
    TrackerResponse {
        interval,
        min_interval: Some(10),
        seeders: Some(2),
        leechers: None,
        peers: hosts.iter().map(|h| peer_info(h)).collect(),
    }
}

#[test]
fn shuffling_keeps_the_trackers_of_a_tier() {
    let urls: Vec<String> = (0..40).map(|i| format!("udp://{i}")).collect();
    let refs: Vec<&str> = urls.iter().map(String::as_str).collect();
    let mut changed = false;
    for _ in 0..10 {
        let (trackers, infos) = trackers(&[&refs, &["http://x"]]);
        assert_eq!(infos.iter().map(|i| &i.url).take(40).collect::<Vec<_>>(), urls.iter().collect::<Vec<_>>());
        assert_eq!(infos[40].tier, 1);
        assert_eq!(trackers.urls[1], ["http://x"]);
        changed |= trackers.urls[0] != urls;
        let mut sorted = trackers.urls[0].clone();
        let mut expected = urls.clone();
        sorted.sort();
        expected.sort();
        assert_eq!(sorted, expected);
    }
    assert!(changed);
}

#[test]
fn trackers_are_listed_once() {
    let (_, infos) = trackers(&[&["a"], &["a", "b"]]);
    assert_eq!(infos.len(), 2);
    assert_eq!((infos[0].tier, infos[1].tier), (0, 1));
}

#[test]
fn schemes_decide_how_a_tracker_is_reached() {
    assert!(matches!(scheme("http://x"), Scheme::Http));
    assert!(matches!(scheme("https://x"), Scheme::Http));
    assert!(matches!(scheme("udp://x"), Scheme::Udp));
    match scheme("wss://x") {
        Scheme::Unsupported(e) => assert_eq!(e, "Unsopported protocol wss"),
        other => panic!("{other:?}"),
    }
    match scheme("") {
        Scheme::Unsupported(e) => assert_eq!(e, "Unsopported protocol "),
        other => panic!("{other:?}"),
    }
}

#[test]
fn a_round_asks_each_tracker_once_and_prefers_the_good() {
    let (_, mut infos) = trackers(&[&["udp:1", "udp:2", "udp:3"], &[], &["http:4"]]);
    let urls = [vec!["udp:1", "udp:2", "udp:3"], vec![], vec!["http:4"]]
        .map(|t| t.into_iter().map(str::to_owned).collect::<Vec<_>>());
    let mut trackers = Trackers::with_urls(CLIENT, Sha1Hash { bytes: [3; 20] }, urls.to_vec());
    infos[0].succeeded = Some(true);
    let mut round = trackers.begin(&mut infos);
    assert!(infos.iter().all(|i| i.succeeded.is_none()));
    let mut seen = Vec::new();
    while let Some((url, _)) = trackers.next(&round) {
        let reply = if url == "udp:1" {
            Err("down".to_owned())
        } else {
            Ok(response(100, &["p"]))
        };
        let peers = trackers.settle(&mut round, reply, &mut infos);
        assert_eq!(peers.len(), trackers.peers.len());
        seen.push(url);
    }
    assert_eq!(seen, ["udp:1", "udp:2", "udp:3", "http:4"]);
    assert_eq!(trackers.urls[0], ["udp:2", "udp:3", "udp:1"]);
    assert_eq!(infos[0].succeeded, Some(false));
    assert_eq!(infos[1].succeeded, Some(true));
    assert_eq!(infos[1].seeders, Some(2));
    assert_eq!(infos[1].endpoints.as_ref().unwrap()[0].to_text(), "p:1");
}

#[test]
fn answers_are_combined() {
    let (mut trackers, _) = trackers(&[&["x"]]);
    assert_eq!(trackers.wait(), 60);
    trackers.update(response(100, &["a", "b"]));
    trackers.update(TrackerResponse {
        interval: 50,
        min_interval: None,
        seeders: Some(1),
        leechers: Some(4),
        peers: vec![PeerInfo {
            id: Some(A),
            endpoints: vec![
                Endpoint { host: "b".to_owned(), port: 1 },
                Endpoint { host: "c".to_owned(), port: 2 },
            ],
        }],
    });
    assert_eq!((trackers.interval, trackers.min_interval), (Some(50), Some(10)));
    assert_eq!((trackers.seeders, trackers.leechers), (Some(2), Some(4)));
    assert_eq!(trackers.peers.len(), 2);
    assert!(trackers.peers[1].id == Some(A));
    assert_eq!(
        trackers.to_text(),
        "Interval: 50\nMinimum interval: 10\nComplete: 2\nIncomplete: 4\nPeers:\n    a:1\n    b:1, c:2\n"
    );
    trackers.min_interval = Some(500);
    assert_eq!(trackers.wait(), 500);
    trackers.reset();
    assert_eq!(trackers.wait(), 60);
    assert_eq!(trackers.peers.len(), 2);
}

#[test]
fn corrupted_metadata_is_not_loaded() {
    let mut torrent = magnet();
    torrent.handle_event(connection(A, "a"), 0).unwrap();
    torrent.metadata.set_length_and_reset(5);
    let hash = torrent.metadata.hash;
    let data = MetadataMessage::Data { index: 0, piece: vec![0; 5], total_size: 5 };
    let action = torrent.handle_event(metadata(A, data), 0).unwrap();
    assert!(matches!(action, Action::Nothing));
    assert_eq!(torrent.metadata.obtained_blocks(), 0);
    assert!(torrent.metadata.hash == hash);
}
