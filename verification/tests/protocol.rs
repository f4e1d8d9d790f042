use victoria::bitfield::Bitfield;
use victoria::proto::bit_torrent::{
    BitTorrent, Frame, Message, RequestTimes, Turn, KEEP_ALIVE_SECONDS,
};
use victoria::proto::metadata::MetadataMessage;
use victoria::proto::pex::PEXMessage;
use victoria::proto::tracker::{
    announce_datagram, announce_query, announce_url, connect_datagram, read_connection, Event,
    Progress, TrackerResponse,
};
use victoria::str_map::StrMap;
use victoria::types::{PeerId, Sha1Hash};

const LOCAL: PeerId = PeerId { bytes: [1; 20] };
const HASH: Sha1Hash = Sha1Hash { bytes: [2; 20] };

fn wire(message: Message) -> Vec<u8> {
    let mut extensions = StrMap::new();
    extensions.insert("ut_metadata".to_owned(), 9);
    BitTorrent::send(message, &mut RequestTimes::new(), &extensions, 0).unwrap()
}

fn parse(bytes: &[u8]) -> Result<Message, String> {
    let length = u32::from_be_bytes(bytes[..4].try_into().unwrap()) as usize;
    assert_eq!(length, bytes.len() - 4);
    if BitTorrent::frame(length) == Frame::KeepAlive {
        return Ok(Message::KeepAlive);
    }
    let code = bytes[4];
    assert_eq!(BitTorrent::expect_payload(code, length)?, length - 1);
    let payload = bytes[5..].to_vec();
    BitTorrent::receive(code, payload, &mut RequestTimes::new(), &mut StrMap::new(), 0)
}

fn there_and_back(message: Message, expected: &[u8]) {
    let shown = format!("{message:?}");
    let bytes = wire(message);
    assert_eq!(bytes, expected);
    assert_eq!(format!("{:?}", parse(&bytes).unwrap()), shown);
}

#[test]
fn greetings_are_accepted() {
    let greeting = BitTorrent::greet(&HASH, &LOCAL);
    assert_eq!(greeting.len(), 68);
    assert_eq!(&greeting[..20], b"\x13BitTorrent protocol");
    assert_eq!(&greeting[20..28], &[0, 0, 0, 0, 0, 0x10, 0, 5]);
    assert_eq!(&greeting[28..48], &HASH.bytes);
    let peer = BitTorrent::handshake("p".to_owned(), &greeting, &HASH, Some(LOCAL)).unwrap();
    assert!(peer.id == LOCAL && peer.supports_fast && peer.supports_dht);
    assert_eq!(peer.name, "p");
}

#[test]
fn greetings_with_other_bits_are_accepted() {
    let mut greeting = BitTorrent::greet(&HASH, &LOCAL);
    greeting[27] = 0;
    let peer = BitTorrent::handshake("p".to_owned(), &greeting, &HASH, None).unwrap();
    assert!(!peer.supports_fast && !peer.supports_dht);
}

#[test]
fn wrong_greetings_are_refused() {
    let good = BitTorrent::greet(&HASH, &LOCAL);
    let error = |at: usize, expected: Option<PeerId>| {
        let mut bad = good.clone();
        bad[at] ^= 0xff;
        BitTorrent::handshake("p".to_owned(), &bad, &HASH, expected).err()
    };
    assert_eq!(
        error(0, None).as_deref(),
        Some("expected handshake response to start with 19")
    );
    assert_eq!(
        error(5, None).as_deref(),
        Some("expected handshake response to have 'BitTorrent protocol'")
    );
    assert_eq!(
        error(30, None).as_deref(),
        Some("expected handshake response to have same info hash")
    );
    assert_eq!(
        error(50, Some(LOCAL)).as_deref(),
        Some("expected handshake response to have right peer id")
    );
    assert_eq!(error(50, None), None);
}

#[test]
fn messages_go_there_and_back() {
    there_and_back(Message::Choked(true), &[0, 0, 0, 1, 0]);
    there_and_back(Message::Choked(false), &[0, 0, 0, 1, 1]);
    there_and_back(Message::Interested(true), &[0, 0, 0, 1, 2]);
    there_and_back(Message::Interested(false), &[0, 0, 0, 1, 3]);
    there_and_back(Message::Have { index: 258 }, &[0, 0, 0, 5, 4, 0, 0, 1, 2]);
    there_and_back(
        Message::Bitfield(Bitfield::from_vec(vec![0xa0])),
        &[0, 0, 0, 2, 5, 0xa0],
    );
    there_and_back(
        Message::Request { index: 1, begin: 2, length: 3 },
        &[0, 0, 0, 13, 6, 0, 0, 0, 1, 0, 0, 0, 2, 0, 0, 0, 3],
    );
    there_and_back(
        Message::Piece { index: 1, begin: 2, piece: vec![9], response_time: None },
        &[0, 0, 0, 10, 7, 0, 0, 0, 1, 0, 0, 0, 2, 9],
    );
    there_and_back(
        Message::Cancel { index: 1, begin: 2, length: 3 },
        &[0, 0, 0, 13, 8, 0, 0, 0, 1, 0, 0, 0, 2, 0, 0, 0, 3],
    );
    there_and_back(
        Message::Reject { index: 1, begin: 2, length: 3 },
        &[0, 0, 0, 13, 16, 0, 0, 0, 1, 0, 0, 0, 2, 0, 0, 0, 3],
    );
    there_and_back(Message::HaveAll, &[0, 0, 0, 1, 14]);
    there_and_back(Message::HaveNone, &[0, 0, 0, 1, 15]);
    there_and_back(Message::Suggest { index: 4 }, &[0, 0, 0, 5, 13, 0, 0, 0, 4]);
    there_and_back(Message::AllowedFast { index: 4 }, &[0, 0, 0, 5, 17, 0, 0, 0, 4]);
    there_and_back(Message::DHTPort { port: 6881 }, &[0, 0, 0, 3, 9, 0x1a, 0xe1]);
    assert_eq!(wire(Message::KeepAlive), [0, 0, 0, 0]);
}

#[test]
fn metadata_messages_use_the_code_of_the_peer() {
    let bytes = wire(Message::Metadata(MetadataMessage::Request { index: 3 }));
    assert_eq!(&bytes[..6], &[0, 0, 0, 27, 20, 9]);
    assert_eq!(&bytes[6..], b"d8:msg_typei0e5:piecei3ee");
}

#[test]
fn extension_codes_are_remembered() {
    let mut extensions = StrMap::new();
    let greeting = wire(BitTorrent::extension_greeting());
    let message = BitTorrent::receive(
        20,
        greeting[5..].to_vec(),
        &mut RequestTimes::new(),
        &mut extensions,
        0,
    )
    .unwrap();
    assert!(matches!(message, Message::ExtensionHandshake { .. }));
    assert_eq!(extensions.get("ut_metadata"), Some(2));
    assert_eq!(extensions.get("ut_pex"), Some(1));
}

#[test]
fn extension_handshakes_go_there_and_back() {
    let bytes = BitTorrent::extension_greeting().into_bytes();
    assert_eq!(bytes, b"d1:md11:ut_metadatai2e6:ut_pexi1ee4:reqqi70e1:v6:custome");
    let message = Message::from_extension_handshake_bytes(&bytes).unwrap();
    let shown = format!("{:?}", BitTorrent::extension_greeting());
    assert_eq!(format!("{message:?}"), shown);
    assert!(Message::KeepAlive.into_bytes().is_empty());
}

#[test]
fn broken_extension_handshakes_are_refused() {
    let error = |s: &str| Message::from_extension_handshake_bytes(s.as_bytes()).err().unwrap();
    assert_eq!(error("e"), "Unable to find root dictionary");
    assert_eq!(error("de"), "Missing key m");
    assert_eq!(error("d1:mi1ee"), "'m' must be a dictionary");
    assert_eq!(error("d1:md1:xi-1eee"), "x must be an unsigned integer");
    assert_eq!(error("d1:mde1:vi1ee"), "v must be a UTF-8 string");
    assert_eq!(error("d1:mde4:reqq1:xe"), "reqq must be an unsigned integer");
}

#[test]
fn unknown_messages_are_named() {
    assert!(matches!(
        parse(&[0, 0, 0, 2, 99, 1]),
        Ok(Message::Unsupported { type_byte: 99 })
    ));
    assert!(matches!(
        parse(&[0, 0, 0, 2, 20, 77]),
        Ok(Message::UnsupportedExtension { type_byte: 77 })
    ));
}

#[test]
fn an_empty_frame_is_a_sign_of_life() {
    assert_eq!(BitTorrent::frame(0), Frame::KeepAlive);
    assert_eq!(BitTorrent::frame(1), Frame::Body);
    assert_eq!(BitTorrent::frame(usize::MAX), Frame::Body);
    there_and_back(Message::KeepAlive, &[0, 0, 0, 0]);
}

#[test]
fn idle_connections_show_signs_of_life() {
    assert_eq!(KEEP_ALIVE_SECONDS, 120);
    assert!(matches!(BitTorrent::next_message(Turn::Idle), Some(Message::KeepAlive)));
    let given = Turn::Given(Message::Have { index: 3 });
    assert!(matches!(BitTorrent::next_message(given), Some(Message::Have { index: 3 })));
    assert!(BitTorrent::next_message(Turn::Closed).is_none());
}

#[test]
fn lengths_are_checked() {
    assert_eq!(
        BitTorrent::expect_payload(4, 6),
        Err("The length of a Have payloud should be 5, got 6".to_owned())
    );
    assert_eq!(
        BitTorrent::expect_payload(7, 8),
        Err("The length of a Piece payloud should be at least  9, got 8".to_owned())
    );
    assert_eq!(BitTorrent::expect_payload(7, 9), Ok(8));
    assert_eq!(BitTorrent::expect_payload(20, 3), Ok(2));
    assert!(BitTorrent::check_length(3, 3, false, "x").is_ok());
}

#[test]
fn response_times_are_measured_once() {
    let mut times = RequestTimes::new();
    let extensions = StrMap::new();
    let request = Message::Request { index: 1, begin: 0, length: 2 };
    BitTorrent::send(request, &mut times, &extensions, 100).unwrap();
    let payload = [0, 0, 0, 1, 0, 0, 0, 0, 7, 7].to_vec();
    let mut time = |now: u64| {
        let message =
            BitTorrent::receive(7, payload.clone(), &mut times, &mut StrMap::new(), now).unwrap();
        match message {
            Message::Piece { response_time, .. } => response_time,
            other => panic!("{other:?}"),
        }
    };
    assert_eq!(time(350), Some(250));
    assert_eq!(time(400), None);
}

#[test]
fn metadata_messages_go_there_and_back() {
    let data = MetadataMessage::Data { index: 1, piece: vec![1, 2, 3], total_size: 20 };
    let shown = format!("{data:?}");
    let bytes = data.into_bytes();
    assert_eq!(
        bytes,
        [b"d8:msg_typei1e5:piecei1e10:total_sizei20ee".as_slice(), &[1, 2, 3]].concat()
    );
    assert_eq!(format!("{:?}", MetadataMessage::from_bytes(&bytes).unwrap()), shown);
    let reject = MetadataMessage::Reject { index: 5 }.into_bytes();
    assert_eq!(reject, b"d8:msg_typei2e5:piecei5ee");
    assert!(matches!(
        MetadataMessage::from_bytes(&reject),
        Ok(MetadataMessage::Reject { index: 5 })
    ));
    assert!(matches!(
        MetadataMessage::from_bytes(b"d8:msg_typei9e5:piecei5ee"),
        Ok(MetadataMessage::Unsupported { type_code: 9 })
    ));
    assert!(MetadataMessage::from_bytes(b"d5:piecei5ee").is_err());
    assert!(MetadataMessage::from_bytes(b"e").is_err());
}

#[test]
fn peers_are_exchanged() {
    let message =
        PEXMessage::from_bytes(b"d5:added6:\x7f\x00\x00\x01\x1a\xe17:dropped0:e").unwrap();
    assert_eq!(message.added.len(), 1);
    assert_eq!(message.added[0].to_text(), "127.0.0.1:6881");
    assert!(message.dropped.is_empty());
    assert_eq!(
        PEXMessage::from_bytes(b"d5:added5:abcdee").err().as_deref(),
        Some("added must hold six bytes for each peer")
    );
    assert_eq!(
        PEXMessage::from_bytes(b"d7:droppedi1ee").err().as_deref(),
        Some("dropped must be a byte string")
    );
}

#[test]
fn trackers_answer_over_http() {
    let answer = b"d8:completei5e10:incompletei3e8:intervali900e12:min intervali60e5:peers6:\x0a\x00\x00\x01\x00\x50e";
    let response = TrackerResponse::from_bytes(answer).unwrap();
    assert_eq!(response.interval, 900);
    assert_eq!(response.min_interval, Some(60));
    assert_eq!(response.seeders, Some(5));
    assert_eq!(response.leechers, Some(3));
    assert_eq!(response.peers[0].to_text(), "10.0.0.1:80");
    let error = |s: &str| TrackerResponse::from_bytes(s.as_bytes()).err().unwrap();
    assert_eq!(error("d14:failure reason4:nopee"), "nope");
    assert_eq!(error("de"), "Missing key interval");
    assert_eq!(error("d8:interval1:xe"), "interval must be an unsigned integer");
    assert_eq!(error("d8:intervali1e5:peers1:xe"), "peers must hold six bytes for each peer");
}

#[test]
fn trackers_are_asked_over_http() {
    let progress = Progress { downloaded: 1, left: 2, uploaded: 3, event: Event::Started };
    let query = announce_query(&LOCAL, &HASH, &progress, 6881);
    assert_eq!(
        query,
        format!(
            "info_hash={}&peer_id={}&port=6881&uploaded=3&downloaded=1&left=2&compact=1&event=started",
            "%02".repeat(20),
            "%01".repeat(20)
        )
    );
    assert!(announce_query(&LOCAL, &HASH, &Progress::default(), 1).ends_with("compact=1"));
    let url = announce_url("http://t/announce", &LOCAL, &HASH, &progress, 6881);
    assert_eq!(url, format!("http://t/announce?{query}"));
    let url = announce_url("http://t/announce?key=1", &LOCAL, &HASH, &progress, 6881);
    assert_eq!(url, format!("http://t/announce?key=1&{query}"));
}

#[test]
fn trackers_are_asked_over_udp() {
    let hello = connect_datagram(7);
    assert_eq!(hello, [0, 0, 4, 0x17, 0x27, 0x10, 0x19, 0x80, 0, 0, 0, 0, 0, 0, 0, 7]);
    let granted = [0, 0, 0, 0, 0, 0, 0, 7, 0, 0, 0, 1, 0, 0, 0, 2];
    assert_eq!(read_connection(&granted, 7), Some((1 << 32) + 2));
    assert_eq!(read_connection(&granted, 8), None);
    assert_eq!(read_connection(&granted[..15], 7), None);

    let progress = Progress { downloaded: 1, left: 2, uploaded: 3, event: Event::Completed };
    let announce = announce_datagram(5, 7, &LOCAL, &HASH, &progress, 6881);
    assert_eq!(announce.len(), 98);
    assert_eq!(&announce[..16], &[0, 0, 0, 0, 0, 0, 0, 5, 0, 0, 0, 1, 0, 0, 0, 7]);
    assert_eq!(&announce[16..36], &HASH.bytes);
    assert_eq!(&announce[36..56], &LOCAL.bytes);
    assert_eq!(announce[83], 1);
    assert_eq!(&announce[92..], &[0xff, 0xff, 0xff, 0xff, 0x1a, 0xe1]);

    let mut answer = vec![0, 0, 0, 1, 0, 0, 0, 7, 0, 0, 0, 60, 0, 0, 0, 4, 0, 0, 0, 5];
    answer.extend([1, 2, 3, 4, 0, 80]);
    let response = TrackerResponse::from_datagram(&answer, 7).unwrap();
    assert_eq!((response.interval, response.leechers, response.seeders), (60, Some(4), Some(5)));
    assert_eq!(response.peers[0].to_text(), "1.2.3.4:80");
    assert!(TrackerResponse::from_datagram(&answer, 6).is_none());
}
