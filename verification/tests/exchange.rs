use sha1::Digest;
use victoria::bitfield::Bitfield;
use victoria::metainfo::{Metadata, Metainfo};
use victoria::proto::bit_torrent::Message;
use victoria::torrent::control::Progress;
use victoria::torrent::piece::Piece;
use victoria::torrent::transfer::connection::{Congestion, Connection};
use victoria::torrent::transfer::model::{Op, TransferError};
use victoria::torrent::transfer::piece_cache::PieceCache;
use victoria::torrent::transfer::{Pending, Transfer};
use victoria::torrent::Torrent;
use victoria::types::{PeerId, Sha1Hash};

const BLOCK: usize = 16_384;
const LENGTH: usize = 40_000;
const A: PeerId = PeerId { bytes: [1; 20] };
const B: PeerId = PeerId { bytes: [2; 20] };

fn digest(data: &[u8]) -> Sha1Hash {
    Sha1Hash { bytes: sha1::Sha1::digest(data).into() }
}

fn data() -> Vec<u8> {
    (0..LENGTH).map(|i| (i % 251) as u8).collect()
}

/// Two pieces of two blocks each; the last block is short.
fn info() -> Vec<u8> {
    let data = data();
    let mut info = format!("d5:filesld6:lengthi30000e4:pathl1:aeed6:lengthi10000e4:pathl3:dir1:beee4:name4:test12:piece lengthi{}e6:pieces40:", 2 * BLOCK)
        .into_bytes();
    for piece in data.chunks(2 * BLOCK) {
        info.extend(digest(piece).bytes);
    }
    info.extend(b"e");
    info
}

fn metadata() -> Metadata {
    Metadata::from_bytes(&info()).unwrap()
}

fn progress() -> Progress {
    let file = [b"d4:info".as_slice(), &info(), b"e"].concat();
    Torrent::from_torrent_file(&file, A).unwrap().0.progress
}

fn sent(transfer: &mut Transfer) -> Vec<(u8, String)> {
    transfer
        .take_outboxes()
        .into_iter()
        .flat_map(|(id, messages)| {
            messages.into_iter().map(move |m| (id.bytes[0], format!("{m:?}")))
        })
        .collect()
}

fn request(index: usize, begin: usize, length: usize) -> String {
    format!("{:?}", Message::Request { index, begin, length })
}

fn tell(transfer: &mut Transfer, peer: PeerId, message: Message) -> Pending {
    transfer.handle_event(&peer, message, 0, &mut progress()).unwrap()
}

fn block(index: usize, begin: usize) -> Message {
    let at = index * 2 * BLOCK + begin;
    let piece = data()[at..(at + BLOCK).min(LENGTH)].to_vec();
    Message::Piece { index, begin, piece, response_time: Some(1) }
}

/// A transfer whose peer has everything and has been asked for two blocks.
fn asking() -> Transfer {
    let mut transfer = Transfer::new(metadata(), None);
    transfer.add_connection(A, true);
    tell(&mut transfer, A, Message::HaveAll);
    tell(&mut transfer, A, Message::Choked(false));
    transfer
}

#[test]
fn files_are_laid_out_over_the_pieces() {
    let m = metadata();
    assert_eq!((m.name.as_str(), m.length, m.num_pieces), ("test", LENGTH, 2));
    assert_eq!((m.piece_length(0), m.piece_length(1)), (2 * BLOCK, LENGTH - 2 * BLOCK));
    let transfer = Transfer::new(m, None);
    let runs = transfer.disk_runs(0);
    assert_eq!(runs.len(), 2);
    assert_eq!(runs[0].path, ["test", "a"]);
    assert_eq!((runs[0].file_offset, runs[0].piece_offset, runs[0].length), (0, 0, 30_000));
    assert_eq!(runs[1].path, ["test", "dir", "b"]);
    assert_eq!(
        (runs[1].file_offset, runs[1].piece_offset, runs[1].length),
        (0, 30_000, 2 * BLOCK - 30_000)
    );
    let runs = transfer.disk_runs(1);
    assert_eq!(runs.iter().map(|r| r.length).sum::<usize>(), LENGTH - 2 * BLOCK);
    assert_eq!(runs[0].file_offset, 2 * BLOCK - 30_000);
    assert_eq!(runs[0].file_length, 10_000);
}

#[test]
fn broken_metadata_is_refused() {
    let error = |s: &[u8]| Metadata::from_bytes(s).err().unwrap();
    assert_eq!(error(b"e"), "Unable to find root dictionary");
    assert_eq!(error(b"de"), "Missing key name");
    assert_eq!(
        error(b"d6:lengthi5e4:name1:x12:piece lengthi0e6:pieces0:e"),
        "Pieces must not be empty"
    );
    assert_eq!(
        error(b"d6:lengthi5e4:name1:x12:piece lengthi4e6:pieces20:aaaaaaaaaaaaaaaaaaaae"),
        "Pieces do not match the length"
    );
    assert_eq!(
        error(b"d5:filesi1e4:name1:x12:piece lengthi4e6:pieces0:e"),
        "files must be a list"
    );
}

#[test]
fn torrent_files_are_read() {
    let info = info();
    let file = [b"d8:announce4:http4:info".as_slice(), &info, b"e"].concat();
    let (metainfo, bytes) = Metainfo::from_bytes(&file).unwrap();
    assert_eq!(bytes, info);
    assert!(metainfo.info_hash == digest(&info));
    assert_eq!(metainfo.announces, [["http".to_owned()]]);
    let list = [b"d13:announce-listll1:a1:bel1:cee4:info".as_slice(), &info, b"e"].concat();
    let tiers = Metainfo::from_bytes(&list).unwrap().0.announces;
    assert_eq!(tiers, [vec!["a".to_owned(), "b".to_owned()], vec!["c".to_owned()]]);
    let error = |s: &[u8]| Metainfo::from_bytes(s).err().unwrap();
    assert_eq!(error(b"de"), "Missing key info");
    assert_eq!(error(b"e"), "Unable to find root dictionary");
    assert_eq!(error(b"d13:announce-listi1e4:infodee"), "announce-list must be a list");
}

#[test]
fn pieces_are_put_together() {
    let bytes = data();
    let whole = &bytes[..2 * BLOCK];
    let mut piece = Piece::new(Some(0), BLOCK, 2 * BLOCK, digest(whole), false);
    assert_eq!(piece.num_blocks(), 2);
    assert_eq!(piece.find_available_block(&A), Some(0));
    piece.download(0, A, 10);
    assert!(piece.who_downloading(0) == Some(A));
    assert_eq!(piece.find_available_block(&A), Some(1));
    assert_eq!(piece.num_downloading(&A), 1);
    assert!(piece.is_active() && piece.is_available());
    assert!(piece.place(0, whole[..BLOCK].to_vec(), true).is_none());
    assert!(piece.has_obtained(0));
    assert_eq!(piece.get(0).unwrap(), &whole[..BLOCK]);
    assert_eq!(piece.get(1), None);
    assert_eq!(piece.to_bitfield().as_bytes(), &[0x80]);
    assert_eq!(piece.place(1, whole[BLOCK..].to_vec(), true).unwrap(), whole);
    assert!(piece.is_complete() && piece.is_written() && !piece.is_active());
}

#[test]
fn a_wrong_digest_starts_a_piece_over() {
    let mut piece = Piece::new(None, BLOCK, BLOCK, digest(b"other"), false);
    assert!(piece.place(0, vec![0; BLOCK], false).is_none());
    assert_eq!(piece.obtained_blocks(), 0);
    assert_eq!(piece.find_available_block(&A), Some(0));
}

#[test]
fn a_block_of_the_wrong_length_is_free_again() {
    let mut piece = Piece::new(None, BLOCK, 2 * BLOCK, digest(b"x"), false);
    piece.download(1, A, 0);
    assert!(piece.place(1, vec![0; 3], false).is_none());
    assert!(piece.who_downloading(1).is_none() && !piece.has_obtained(1));
}

#[test]
fn refused_blocks_are_not_asked_of_the_same_peer() {
    let mut piece = Piece::new(None, BLOCK, BLOCK, digest(b"x"), false);
    piece.download(0, A, 0);
    piece.reject(0, A);
    assert_eq!(piece.find_available_block(&A), None);
    assert_eq!(piece.find_available_block(&B), Some(0));
}

#[test]
fn late_requests_are_given_up() {
    let mut piece = Piece::new(None, BLOCK, 2 * BLOCK, digest(b"x"), false);
    piece.download(0, A, 0);
    piece.download(1, B, 3_000);
    let late = piece.check_timeout(5_001);
    assert!(late.len() == 1 && late[0] == A);
    assert!(piece.who_downloading(0).is_none() && piece.who_downloading(1) == Some(B));
    piece.reset(&B);
    assert!(piece.who_downloading(1).is_none());
    piece.set_length_and_reset(5 * BLOCK + 1);
    assert_eq!(piece.num_blocks(), 6);
}

#[test]
fn known_metadata_is_complete() {
    let bytes = info();
    let piece = Piece::from_slice(BLOCK, digest(&bytes), &bytes);
    assert!(piece.is_complete() && !piece.is_written());
    assert_eq!(piece.get(0).unwrap(), bytes);
}

#[test]
fn the_cache_drops_what_was_used_longest_ago() {
    let mut cache = PieceCache::new(2);
    cache.insert(1, vec![1]);
    cache.insert(2, vec![2]);
    assert!(cache.touch(1));
    cache.insert(3, vec![3]);
    assert!(cache.touch(1) && cache.touch(3) && !cache.touch(2));
}

#[test]
fn requests_grow_with_success_and_shrink_with_timeouts() {
    let mut con = Connection::new(A, 4, true);
    assert_eq!(con.max_requests(), 2);
    con.receive_piece(100, Some(5), false);
    con.reset_stats();
    assert_eq!(con.max_requests(), 4);
    assert_eq!(con.downloaded_this_second(), 0);
    con.set_peer_choking(false);
    con.timeout(3);
    con.reset_stats();
    assert_eq!(con.max_requests(), 3);
    con.reset_stats();
    assert_eq!(con.max_requests(), 3);
    for _ in 0..200 {
        con.boost_max_requests();
    }
    assert_eq!(con.max_requests(), 200);
    for _ in 0..50 {
        con.throttle_max_requests();
    }
    assert_eq!(con.max_requests(), 1);
}

#[test]
fn one_timeout_a_second_is_never_too_many() {
    let mut congestion = Connection::new(A, 1, true).congestion;
    let mut seconds = 0;
    while congestion.next(1) != congestion {
        congestion = congestion.next(1);
        seconds += 1;
        assert!(seconds < 100);
    }
    let mut average = 0.0f64;
    for _ in 0..seconds {
        average = if 1.0 > average { 0.4 + 0.6 * average } else { 1.0 };
    }
    assert!(average < 1.0);
    let two = congestion.next(2);
    assert_ne!(two, Congestion::next(congestion, 0));
}

#[test]
fn connections_keep_their_flags() {
    let mut con = Connection::new(A, 10, false);
    assert!(con.am_choking() && con.peer_choking() && !con.am_interested());
    con.set_am_interested(true);
    con.set_am_choking(false);
    con.set_peer_interested(true);
    con.set_peer_choking(false);
    assert!(con.can_request() && con.can_upload() && con.peer_interested());
    con.request(1, 2, 3);
    con.request(1, 2, 3);
    assert!(!con.can_request());
    assert_eq!(con.sent_requests(), 2);
    con.reject();
    assert_eq!((con.sent_requests(), con.rejects_this_second()), (1, 1));
    con.set_peer_choking(true);
    assert_eq!(con.sent_requests(), 0);
    con.send_piece(0, 0, vec![0; 40_000]);
    assert!(!con.can_upload());
    assert_eq!(con.uploaded_this_second(), 40_000);
    con.set_piece(9);
    assert!(con.has_piece(9) && !con.has_piece(0));
    con.set_pieces();
    assert!(con.has_piece(0));
    con.unset_pieces();
    assert!(!con.piece_bitfield().has(9));
    assert_eq!(con.set_bitfield(&Bitfield::from_vec(vec![1])), Err((2, 1)));
    assert_eq!(con.set_bitfield(&Bitfield::from_vec(vec![0x80, 0])), Ok(()));
    assert!(con.has_piece(0));
    con.sub_sent_requests(5);
    con.reset_sent_requests();
    assert_eq!(con.sent_requests(), 0);
    assert_eq!(con.timeouts_this_second(), 0);
    assert_eq!(con.take_outbox().len(), 5);
}

#[test]
fn new_connections_are_told_what_is_had() {
    let mut transfer = Transfer::new(metadata(), None);
    transfer.add_connection(A, true);
    transfer.add_connection(B, false);
    assert_eq!(
        sent(&mut transfer),
        [
            (1, "HaveNone".to_owned()),
            (1, "Interested(true)".to_owned()),
            (2, "Interested(true)".to_owned()),
        ]
    );
    let mut full = Transfer::new(metadata(), Some(vec![0xc0]));
    full.add_connection(A, true);
    assert_eq!(sent(&mut full)[0].1, "HaveAll");
    let mut half = Transfer::new(metadata(), Some(vec![0x80]));
    half.add_connection(A, true);
    assert!(sent(&mut half)[0].1.starts_with("Bitfield"));
}

#[test]
fn blocks_are_asked_for_in_order() {
    let mut transfer = asking();
    let messages = sent(&mut transfer);
    assert_eq!(messages[2], (1, request(0, 0, BLOCK)));
    assert_eq!(messages[3], (1, request(0, BLOCK, BLOCK)));
    assert_eq!(messages.len(), 4);
    assert!(transfer.check_request_accounting());
}

#[test]
fn pieces_are_downloaded_and_told() {
    let mut transfer = asking();
    transfer.add_connection(B, true);
    sent(&mut transfer);
    assert!(matches!(tell(&mut transfer, A, block(0, 0)), Pending::Nothing));
    assert_eq!(sent(&mut transfer), [(1, request(1, 0, LENGTH - 2 * BLOCK))]);
    match tell(&mut transfer, A, block(0, BLOCK)) {
        Pending::Write { index, piece } => {
            assert_eq!(index, 0);
            assert_eq!(piece, &data()[..2 * BLOCK]);
        }
        other => panic!("{other:?}"),
    }
    assert_eq!(transfer.downloaded_left(), (0, LENGTH));
    transfer.finish_write(0, 0);
    assert_eq!(transfer.downloaded_left(), (2 * BLOCK, LENGTH - 2 * BLOCK));
    assert_eq!(transfer.announced.left, LENGTH - 2 * BLOCK);
    let have = format!("{:?}", Message::Have { index: 0 });
    assert_eq!(sent(&mut transfer), [(1, have.clone()), (2, have)]);
    match tell(&mut transfer, A, block(1, 0)) {
        Pending::Write { index: 1, .. } => transfer.finish_write(1, 0),
        other => panic!("{other:?}"),
    }
    assert_eq!(transfer.downloaded_left(), (LENGTH, 0));
    assert!(transfer.check_request_accounting());
}

#[test]
fn saved_states_are_loaded() {
    let mut transfer = asking();
    tell(&mut transfer, A, block(0, 0));
    tell(&mut transfer, A, block(0, BLOCK));
    transfer.finish_write(0, 0);
    let saved = transfer.save_state();
    assert_eq!(saved, [0x80]);
    let again = Transfer::new(metadata(), Some(saved));
    assert_eq!(again.downloaded_left(), transfer.downloaded_left());
}

#[test]
fn blocks_are_served_from_disk_and_cache() {
    let mut transfer = Transfer::new(metadata(), Some(vec![0xc0]));
    transfer.add_connection(A, true);
    let wanted = || Message::Request { index: 1, begin: 4, length: 8 };
    tell(&mut transfer, A, wanted());
    assert!(sent(&mut transfer).last().unwrap().1.starts_with("Reject"));
    tell(&mut transfer, A, Message::Interested(true));
    match tell(&mut transfer, A, wanted()) {
        Pending::Read { index: 1, begin: 4, length: 8, .. } => {}
        other => panic!("{other:?}"),
    }
    sent(&mut transfer);
    let piece = data()[2 * BLOCK..].to_vec();
    let expected = format!(
        "{:?}",
        Message::Piece {
            index: 1,
            begin: 4,
            piece: piece[4..12].to_vec(),
            response_time: None
        }
    );
    transfer.finish_read(&A, 1, 4, 8, piece, 0);
    assert_eq!(sent(&mut transfer), [(1, expected.clone())]);
    assert!(matches!(tell(&mut transfer, A, wanted()), Pending::Nothing));
    assert_eq!(sent(&mut transfer), [(1, expected)]);
}

#[test]
fn messages_out_of_range_are_refused() {
    let mut transfer = Transfer::new(metadata(), None);
    transfer.add_connection(A, true);
    let mut error = |message: Message| {
        transfer.handle_event(&A, message, 0, &mut progress()).err().unwrap()
    };
    assert_eq!(
        error(Message::Have { index: 2 }),
        TransferError::PieceIndex { op: Op::Have, index: 2 }
    );
    assert_eq!(
        error(Message::Cancel { index: 0, begin: 1, length: BLOCK }),
        TransferError::Boundary { op: Op::Cancel, begin: 1 }
    );
    assert_eq!(
        error(Message::Request { index: 1, begin: BLOCK, length: 1 }),
        TransferError::Begin {
            op: Op::Request,
            index: 1,
            piece_length: LENGTH - 2 * BLOCK,
            begin: BLOCK
        }
    );
    assert_eq!(
        error(Message::Reject { index: 0, begin: 0, length: 5 }),
        TransferError::BlockLength { length: 5 }
    );
    assert_eq!(
        error(Message::Request { index: 0, begin: 0, length: 3 * BLOCK }),
        TransferError::Length {
            op: Op::Request,
            index: 0,
            piece_length: 2 * BLOCK,
            begin: 0,
            length: 3 * BLOCK
        }
    );
    assert_eq!(
        error(Message::Bitfield(Bitfield::from_vec(vec![0, 0]))),
        TransferError::BitfieldSize { expected: 1, got: 2 }
    );
    assert_eq!(
        error(Message::Piece { index: 0, begin: 3, piece: vec![], response_time: None }),
        TransferError::Boundary { op: Op::Piece, begin: 3 }
    );
}

#[test]
fn errors_are_explained() {
    assert_eq!(
        TransferError::PieceIndex { op: Op::Have, index: 2 }.to_text(),
        "The index of have leads outside the number of pieces, got 2"
    );
    assert_eq!(
        TransferError::Boundary { op: Op::Cancel, begin: 1 }.to_text(),
        "Begin of cancel is not at block boundary, got 1"
    );
    assert_eq!(
        TransferError::Begin { op: Op::Request, index: 1, piece_length: 5, begin: 6 }.to_text(),
        "Begin of request is past piece 1 of length 5, got 6"
    );
    assert_eq!(
        TransferError::BlockLength { length: 5 }.to_text(),
        "Length does not match block, got 5"
    );
    assert_eq!(
        TransferError::Length { op: Op::Piece, index: 0, piece_length: 9, begin: 4, length: 8 }
            .to_text(),
        "Length of piece is past piece 0 of length 9, got 4 + 8"
    );
    assert_eq!(
        TransferError::BitfieldSize { expected: 1, got: 2 }.to_text(),
        "The received bitfield should be 1 bytes long, got 2"
    );
}

#[test]
fn books_balance_whatever_happens() {
    let mut transfer = asking();
    transfer.add_connection(B, false);
    tell(&mut transfer, B, Message::HaveAll);
    tell(&mut transfer, B, Message::Choked(false));
    assert!(transfer.check_request_accounting());
    tell(&mut transfer, B, block(0, 0));
    assert!(transfer.check_request_accounting());
    tell(&mut transfer, A, Message::Reject { index: 0, begin: BLOCK, length: BLOCK });
    assert!(transfer.check_request_accounting());
    tell(&mut transfer, B, Message::Choked(true));
    assert!(transfer.check_request_accounting());
    let mut progress = progress();
    assert!(transfer.has_room_for_tick());
    transfer.tick(6_000, &mut progress);
    assert!(transfer.check_request_accounting());
    transfer.sever_connection(&A, &mut progress);
    assert!(transfer.check_request_accounting());
}

#[test]
fn a_tick_shows_the_second() {
    let mut transfer = asking();
    tell(&mut transfer, A, block(0, 0));
    let mut progress = progress();
    let reports = transfer.tick(1_000, &mut progress);
    assert!(reports.len() == 1 && reports[0].peer == A);
    assert_eq!(reports[0].sent_requests, 2);
    assert_eq!((reports[0].chokes, reports[0].rejects), (0, 0));
    let shown = progress.transfer.as_ref().unwrap();
    assert_eq!(shown.down_speed, BLOCK);
    assert_eq!(shown.size, LENGTH);
    assert_eq!(shown.files[1].relative_path, "dir/b");
    assert_eq!(shown.eta(), Some((LENGTH / BLOCK) as u64));
    transfer.handle_event(&A, block(0, BLOCK), 1_000, &mut progress).unwrap();
    let shown = progress.transfer.as_ref().unwrap();
    assert_eq!(shown.active_pieces.len(), 2);
    assert_eq!(shown.active_pieces[0].num_obtained_blocks, 1);
}

#[test]
fn late_requests_are_given_up_before_a_second_is_reported() {
    let mut transfer = asking();
    let before = transfer.reports()[0].sent_requests;
    assert!(before > 0);
    let reports = transfer.tick(6_000, &mut progress());
    assert_eq!(reports[0].sent_requests, 0);
    assert_eq!(reports[0].num_response_times, 0);
}

#[test]
fn corrupted_pieces_are_not_written() {
    let mut transfer = asking();
    let bad = Message::Piece {
        index: 0,
        begin: 0,
        piece: vec![0; BLOCK],
        response_time: None,
    };
    assert!(matches!(tell(&mut transfer, A, bad), Pending::Nothing));
    sent(&mut transfer);
    assert!(matches!(tell(&mut transfer, A, block(0, BLOCK)), Pending::Nothing));
    assert_eq!(transfer.save_state(), [0]);
    assert_eq!(sent(&mut transfer), [(1, request(0, 0, BLOCK))]);
}

#[test]
fn pieces_that_are_had_are_not_asked_for() {
    let mut transfer = Transfer::new(metadata(), Some(vec![0x80]));
    transfer.add_connection(A, true);
    tell(&mut transfer, A, Message::HaveAll);
    tell(&mut transfer, A, Message::Choked(false));
    let asked: Vec<String> = sent(&mut transfer).into_iter().skip(2).map(|m| m.1).collect();
    assert_eq!(asked, [request(1, 0, LENGTH - 2 * BLOCK)]);
}
