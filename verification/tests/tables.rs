use std::collections::hash_map::DefaultHasher;
use std::hash::{Hash, Hasher};

use victoria::bitfield::Bitfield;
use victoria::flat_table;
use victoria::peer_map::PeerMap;
use victoria::screen::{frame, respond, Input, Key, KeyState, Response, Screen};
use victoria::style::Palette;
use victoria::table::layout::{Alignment, Cells, Column};
use victoria::table::state::{Sort, TableEvent, TableState};
use victoria::table::{Row, Table};
use victoria::text::visible_width;
use victoria::torrent::control::{
    ConnectionProgress, FileInfo, PeerProgress, PieceProgress, Progress, TrackerInfo,
    TransferProgress,
};
use victoria::types::{Endpoint, PeerId};

/// A palette without colors.
fn plain() -> Palette {
    Palette {
        green: String::new(),
        white: String::new(),
        red: String::new(),
        yellow: String::new(),
        magenta: String::new(),
        reset: String::new(),
    }
}

/// A palette whose colors can be seen.
fn letters() -> Palette {
    Palette {
        green: "<g>".to_owned(),
        white: "<w>".to_owned(),
        red: "<r>".to_owned(),
        yellow: "<y>".to_owned(),
        magenta: "<m>".to_owned(),
        reset: "</>".to_owned(),
    }
}

fn hash_of<T: Hash + ?Sized>(value: &T) -> u64 {
    let mut hasher = DefaultHasher::new();
    value.hash(&mut hasher);
    hasher.finish()
}

fn peer(id: PeerId) -> PeerProgress {
    PeerProgress {
        id,
        endpoints: vec![Endpoint { host: "h".to_owned(), port: 5 }],
        errors: vec!["one".to_owned(), "two".to_owned()],
        client: Some("client".to_owned()),
        supports_fast: true,
        supports_pex: false,
        supports_metadata: true,
        supports_dht: false,
        connection: None,
    }
}

fn file(path: &str, size: usize) -> FileInfo {
    FileInfo { relative_path: path.to_owned(), size }
}

fn progress(name: &str) -> Progress {
    Progress {
        num_discovery_attempts: 0,
        num_peers: 0,
        num_connected_peers: 2,
        display_name: name.to_owned(),
        metadata_down_speed: 0,
        metadata_up_speed: 0,
        metadata_bitfield: Bitfield::new(0),
        transfer: None,
        peers: PeerMap::new(),
        trackers: vec![TrackerInfo::new(0, "udp://t".to_owned())],
    }
}

fn transfer(down_speed: usize) -> TransferProgress {
    TransferProgress {
        files: vec![file("a", 1), file("b", 2048)],
        down_speed,
        up_speed: 1024,
        downloaded: 100,
        uploaded: 0,
        size: 1100,
        piece_bitfield: Bitfield::new(4),
        active_pieces: Vec::new(),
        percentage: "9.09".to_owned(),
    }
}

fn render<R: Row>(rows: &[R], state: &mut TableState, width: usize) -> Option<String> {
    let rows: Vec<&R> = rows.iter().collect();
    Table::<R>::new(1).render_with(&rows, state, width, &plain())
}

#[test]
fn plain_columns_are_plain() {
    let column = Column::default();
    assert!(column.header.is_empty() && column.alignment == Alignment::Left);
    assert!(column.flex.is_none() && column.max_width.is_none() && !column.has_total);
    assert_eq!(Sort::default(), Sort::Unsorted);
}

#[test]
fn a_table_of_files() {
    let mut state = TableState::new::<FileInfo>(true);
    let files = [file("one", 5), file("two/three", 2048)];
    let expected = "\
╭───────────────┬─────────╮\r
│ Relative path │    Size │\r
├───────────────┼─────────┤\r
│ one           │     5 B │\r
│ two/three     │ 2.0 KiB │\r
╰───────────────┴─────────╯\r
";
    assert_eq!(render(&files, &mut state, 60).unwrap(), expected);
    assert_eq!(state.ordered_row_hashes.len(), 2);
    assert_eq!(state.selected_row, Some(files[0].id()));
}

#[test]
fn tables_without_rows_can_be_shown() {
    let mut state = TableState::new::<FileInfo>(true);
    let shown = render::<FileInfo>(&[], &mut state, 60).unwrap();
    assert_eq!(shown.lines().count(), 4);
    assert_eq!(state.selected_row, None);
}

#[test]
fn colors_show_focus_selection_and_marks() {
    let files = [file("x", 1), file("y", 2)];
    let rows: Vec<&FileInfo> = files.iter().collect();
    let mut state = TableState::new::<FileInfo>(true);
    let table = Table::<FileInfo>::new(0);
    table.render_with(&rows, &mut state, 60, &letters()).unwrap();
    state.handle_event(TableEvent::Mark);
    state.handle_event(TableEvent::Down);
    let shown = table.render_with(&rows, &mut state, 60, &letters()).unwrap();
    let lines: Vec<&str> = shown.lines().collect();
    assert_eq!(lines[0], "<g>╭</><g>─────────────┬────╮</>");
    assert!(lines[3].starts_with("<m>│</><w>x            </>"));
    assert!(lines[4].starts_with("<g>│</><g>y            </>"));
    let mut nested = TableState::new::<FileInfo>(false);
    let shown = table.render_with(&rows, &mut nested, 60, &letters()).unwrap();
    assert!(shown.starts_with("<w>╭") && !shown.contains("<g>"));
}

#[test]
fn lines_are_equally_wide() {
    let torrents = [progress("first"), progress("second")];
    let mut state = TableState::new::<Progress>(true);
    let shown = render(&torrents, &mut state, 100).unwrap();
    for line in shown.lines() {
        assert_eq!(visible_width(line), 100);
    }
}

#[test]
fn flexible_columns_fill_the_width() {
    let torrents = [progress("name")];
    let mut state = TableState::new::<Progress>(true);
    for width in [60, 61, 62, 63, 120] {
        let shown = render(&torrents, &mut state, width).unwrap();
        assert_eq!(visible_width(shown.lines().next().unwrap()), width);
    }
}

#[test]
fn names_are_chopped() {
    let torrents = [progress("a name that is far too long for so narrow a column")];
    let mut state = TableState::new::<Progress>(true);
    let shown = render(&torrents, &mut state, 80).unwrap();
    assert!(shown.contains("…"));
}

#[test]
fn a_table_that_does_not_fit_is_not_shown() {
    let torrents = [progress("name")];
    let mut state = TableState::new::<Progress>(true);
    assert!(render(&torrents, &mut state, 10).is_none());
}

#[test]
fn totals_are_shown_and_hidden() {
    let mut first = progress("first");
    first.transfer = Some(transfer(100));
    let torrents = [first, progress("second")];
    let mut state = TableState::new::<Progress>(true);
    let shown = render(&torrents, &mut state, 100).unwrap();
    let total = shown.lines().rev().nth(1).unwrap();
    assert!(total.contains(" 4 ") && total.contains("100 B") && total.contains("1.0 KiB"));
    assert!(total.contains("10s"));
    state.handle_event(TableEvent::ToggleTotal);
    let hidden = render(&torrents, &mut state, 100).unwrap();
    assert_eq!(hidden.lines().count() + 2, shown.lines().count());
}

#[test]
fn rows_open_and_sections_show_tables() {
    let torrents = [progress("name")];
    let mut state = TableState::new::<Progress>(true);
    render(&torrents, &mut state, 100).unwrap();
    state.handle_event(TableEvent::ToggleSection('t'));
    let shown = render(&torrents, &mut state, 100).unwrap();
    assert!(shown.contains("┤ [f] Files [b] Blocks [p] Peers [t] Trackers ├"));
    assert!(shown.contains("udp://t"));
    assert!(shown.contains("MinInt"));
    for line in shown.lines() {
        assert_eq!(visible_width(line), 100);
    }
    state.handle_event(TableEvent::ToggleSub);
    assert!(!render(&torrents, &mut state, 100).unwrap().contains("udp://t"));
    state.handle_event(TableEvent::ToggleSub);
    state.handle_event(TableEvent::ToggleSection('f'));
    let empty = render(&torrents, &mut state, 100).unwrap();
    assert!(!empty.contains("Relative path"));
}

#[test]
fn the_last_line_tells_an_open_row() {
    let torrents = [progress("name")];
    let mut state = TableState::new::<Progress>(true);
    render(&torrents, &mut state, 100).unwrap();
    state.handle_event(TableEvent::ToggleTotal);
    let closed = render(&torrents, &mut state, 100).unwrap();
    assert!(closed.lines().last().unwrap().contains('┴'));
    state.handle_event(TableEvent::ToggleSub);
    let open = render(&torrents, &mut state, 100).unwrap();
    let last = open.lines().last().unwrap();
    assert!(last.starts_with('╰') && !last.contains('┴'));
}

#[test]
fn focus_goes_into_a_section_and_comes_back() {
    let torrents = [progress("name")];
    let mut state = TableState::new::<Progress>(true);
    render(&torrents, &mut state, 100).unwrap();
    state.handle_event(TableEvent::FocusSection('t'));
    assert_eq!(state.focused_section, Some(3));
    render(&torrents, &mut state, 100).unwrap();
    state.handle_event(TableEvent::Mark);
    let sub = state.row_states[0].1.sub_table_states[3].as_ref().unwrap();
    assert_eq!(sub.prev_focused, Some(true));
    assert!(sub.row_states[0].1.marked && !state.row_states[0].1.marked);
    state.handle_event(TableEvent::UnfocusSection);
    assert_eq!(state.focused_section, None);
    let sub = state.row_states[0].1.sub_table_states[3].as_ref().unwrap();
    assert_eq!(sub.prev_focused, Some(false));
}

#[test]
fn selection_moves_and_stays_in_the_table() {
    let files: Vec<FileInfo> = (0..3).map(|i| file(&format!("f{i}"), i)).collect();
    let mut state = TableState::new::<FileInfo>(true);
    render(&files, &mut state, 60).unwrap();
    let selected = |state: &TableState| {
        files.iter().position(|f| Some(f.id()) == state.selected_row).unwrap()
    };
    state.handle_event(TableEvent::Up);
    assert_eq!(selected(&state), 0);
    state.handle_event(TableEvent::Down);
    state.handle_event(TableEvent::Up);
    assert_eq!(selected(&state), 0);
    state.handle_event(TableEvent::Last);
    assert_eq!(selected(&state), 2);
    state.handle_event(TableEvent::Down);
    assert_eq!(selected(&state), 2);
    state.handle_event(TableEvent::First);
    assert_eq!(selected(&state), 0);
}

#[test]
fn memories_follow_their_rows() {
    let mut state = TableState::new::<FileInfo>(true);
    render(&[file("a", 1), file("b", 1)], &mut state, 60).unwrap();
    state.handle_event(TableEvent::Down);
    state.handle_event(TableEvent::Mark);
    render(&[file("b", 1), file("c", 1)], &mut state, 60).unwrap();
    assert_eq!(state.selected_row, Some(file("b", 1).id()));
    assert_eq!(state.row_states.len(), 2);
    assert!(state.row_states.iter().any(|(h, r)| *h == file("b", 1).id() && r.marked));
    render(&[file("c", 1)], &mut state, 60).unwrap();
    assert_eq!(state.selected_row, Some(file("c", 1).id()));
}

#[test]
fn showing_a_table_again_changes_nothing() {
    let mut open = progress("open");
    open.transfer = Some(transfer(1));
    let torrents = [progress("one"), open, progress("two")];
    let mut state = TableState::new::<Progress>(true);
    render(&torrents, &mut state, 100).unwrap();
    state.handle_event(TableEvent::Down);
    state.handle_event(TableEvent::ToggleSection('f'));
    state.handle_event(TableEvent::Mark);
    let first = render(&torrents, &mut state, 100).unwrap();
    assert!(first.contains("Relative path"));
    let memory = format!("{state:?}");
    assert_eq!(render(&torrents, &mut state, 100).unwrap(), first);
    assert_eq!(format!("{state:?}"), memory);
    let ids: Vec<_> = torrents.iter().map(|t| t.id()).collect();
    assert_eq!(state.ordered_row_hashes, ids);
    assert_eq!(state.selected_row, Some(ids[1]));
    let mut other = progress("two");
    other.trackers.clear();
    let shared = [progress("two"), other];
    let first = render(&shared, &mut state, 100).unwrap();
    assert_eq!(state.row_states.len(), 1);
    let memory = format!("{state:?}");
    assert_eq!(render(&shared, &mut state, 100).unwrap(), first);
    assert_eq!(format!("{state:?}"), memory);
    let same = [progress("two"), progress("two")];
    state.handle_event(TableEvent::ToggleSection('t'));
    let first = render(&same, &mut state, 100).unwrap();
    assert_eq!(first.matches("udp://t").count(), 2);
    let memory = format!("{state:?}");
    assert_eq!(render(&same, &mut state, 100).unwrap(), first);
    assert_eq!(format!("{state:?}"), memory);
    render::<Progress>(&[], &mut state, 100).unwrap();
    assert!(state.selected_row.is_none() && state.ordered_row_hashes.is_empty());
    let twins = [file("same", 1), file("same", 2)];
    let mut state = TableState::new::<FileInfo>(true);
    let first = render(&twins, &mut state, 60).unwrap();
    let memory = format!("{state:?}");
    assert_eq!(render(&twins, &mut state, 60).unwrap(), first);
    assert_eq!(format!("{state:?}"), memory);
}

#[test]
fn toggles_undo_themselves() {
    let torrents = [progress("name")];
    let mut state = TableState::new::<Progress>(true);
    render(&torrents, &mut state, 100).unwrap();
    let before = format!("{state:?}");
    for event in [TableEvent::Mark, TableEvent::ToggleSub, TableEvent::ToggleTotal] {
        state.handle_event(event);
        assert_ne!(format!("{state:?}"), before);
        state.handle_event(event);
        assert_eq!(format!("{state:?}"), before);
    }
    state.handle_event(TableEvent::Mark);
    state.handle_event(TableEvent::Unmark);
    assert_eq!(format!("{state:?}"), before);
}

#[test]
fn rows_are_known_by_what_they_are() {
    assert_eq!(file("a", 1).id(), file("a", 2).id());
    assert_ne!(file("a", 1).id(), file("b", 1).id());
    let tracker = TrackerInfo::new(0, "a".to_owned());
    assert_eq!(tracker.id(), file("a", 1).id());
    let piece = |index: usize| PieceProgress {
        index,
        num_blocks: 2,
        num_obtained_blocks: 1,
        block_bitfield: Bitfield::new(2),
        percentage: "50.00".to_owned(),
    };
    assert_ne!(piece(0).id(), piece(1).id());
    for index in [0, 1, 258, usize::MAX - 5] {
        assert_eq!(piece(index).id(), hash_of(&index));
    }
    assert_eq!(file("ä/b", 1).id(), hash_of("ä/b"));
    assert_eq!(tracker.id(), hash_of("a"));
    let bytes: [u8; 20] = std::array::from_fn(|i| i as u8);
    assert_eq!(peer(PeerId { bytes }).id(), hash_of(&bytes));
    assert_eq!(progress("x").id(), progress("x").id());
}

#[test]
fn cells_of_a_tracker() {
    let mut tracker = TrackerInfo::new(1, "udp://x".to_owned());
    let cells = |t: &TrackerInfo| {
        (0..8).map(|c| t.value(c, None).unwrap()).collect::<Vec<_>>()
    };
    assert_eq!(cells(&tracker), ["", "udp://x", "1", "", "", "", "", ""]);
    tracker.succeeded = Some(false);
    tracker.endpoints = Some(vec![
        Endpoint { host: "a".to_owned(), port: 1 },
        Endpoint { host: "b".to_owned(), port: 2 },
    ]);
    tracker.seeders = Some(3);
    tracker.leechers = Some(4);
    tracker.interval = Some(1800);
    tracker.min_interval = Some(59);
    assert_eq!(cells(&tracker), ["✗", "udp://x", "1", "2", "3", "4", "30m 0s", "59s"]);
    let content = tracker.content(0, &mut None, 80, &plain()).unwrap();
    assert_eq!(content, "a:1\nb:2");
}

#[test]
fn cells_of_a_peer() {
    let mut bytes = [0u8; 20];
    bytes[19] = 0xff;
    let mut peer = peer(PeerId { bytes });
    let cells = |p: &PeerProgress| {
        (0..13).map(|c| p.value(c, Some(4)).unwrap()).collect::<Vec<_>>()
    };
    assert_eq!(
        cells(&peer)[..5],
        ["", "00000000..000000ff", "■ □ ■ □", "client", ""]
    );
    let mut piece_bitfield = Bitfield::new(4);
    piece_bitfield.set(0);
    peer.connection = Some(ConnectionProgress {
        down_speed: 1024,
        up_speed: 0,
        piece_bitfield,
        am_choking: true,
        am_interested: true,
        peer_choking: false,
        peer_interested: false,
        pipeline: 7,
        piece_cursor: Some(3),
        timeout_rate: 1,
        reject_rate: 2,
    });
    assert_eq!(
        cells(&peer)[4..],
        ["█   ", "■ □", "3", "7", "1", "2", "1.0 KiB", "□ ■", "0 B"]
    );
    assert_eq!(peer.value(4, None), None);
    assert_eq!(peer.content(0, &mut None, 80, &plain()).unwrap(), "one\ntwo");
    assert_eq!(peer.content(1, &mut None, 80, &plain()).unwrap(), "h:5");
}

#[test]
fn cells_of_a_torrent() {
    let mut torrent = progress("name");
    torrent.transfer = Some(transfer(100));
    let cells = |p: &Progress| {
        (0..9).map(|c| p.value(c, Some(4)).unwrap()).collect::<Vec<_>>()
    };
    assert_eq!(
        cells(&torrent),
        ["▶", "2", "100 B", "1.0 KiB", "name", "1.0 KiB", "    ", "9.09", "10s"]
    );
    torrent.transfer = Some(transfer(0));
    assert_eq!(cells(&torrent)[8], "");
    torrent.transfer = None;
    assert_eq!(cells(&torrent)[2..4], ["", ""]);
}

#[test]
fn too_large_totals_cannot_be_shown() {
    let mut a = progress("a");
    a.num_connected_peers = usize::MAX;
    let b = progress("b");
    assert_eq!(Progress::total(&vec![&a, &b], 1), None);
    assert_eq!(Progress::total(&vec![&b, &b], 1).as_deref(), Some("4"));
    assert_eq!(Progress::total(&vec![&b], 8).as_deref(), Some(""));
}

#[test]
fn flat_tables_open_and_close_rows() {
    let mut table = flat_table::Table::<FileInfo>::new(1, true, true);
    assert_eq!(table.num_rows(), 0);
    table.toggle();
    let files = [file("a", 1), file("b", 2), file("c", 3)];
    let rows: Vec<&FileInfo> = files.iter().collect();
    assert!(table.render_with(&vec![], 40, &plain()).is_none());
    let expected = "\
╭───────────────┬──────╮\r
│ Relative path │ Size │\r
├───────────────┼──────┤\r
│ a             │  1 B │\r
│ b             │  2 B │\r
│ c             │  3 B │\r
├───────────────┼──────┤\r
│               │      │\r
╰───────────────┴──────╯\r
";
    assert_eq!(table.render_with(&rows, 40, &plain()).unwrap(), expected);
    assert_eq!(table.render_with(&rows, 40, &plain()).unwrap(), expected);
    table.up();
    table.toggle();
    let open = table.render_with(&rows, 40, &plain()).unwrap();
    let lines: Vec<&str> = open.lines().collect();
    assert_eq!(lines[6], "├───────────────┴──────┤");
    assert_eq!(lines[7], "├───────────────┬──────┤");
    table.toggle();
    table.down();
    assert_eq!(table.render_with(&rows, 40, &plain()).unwrap(), expected);
}

#[test]
fn flat_tables_go_round() {
    let files = [file("a", 1), file("b", 2)];
    let rows: Vec<&FileInfo> = files.iter().collect();
    let mut table = flat_table::Table::<FileInfo>::new(0, false, true);
    let first = table.render_with(&rows, 40, &letters()).unwrap();
    assert!(first.contains("<g>a"));
    table.down();
    assert!(table.render_with(&rows, 40, &letters()).unwrap().contains("<g>b"));
    table.down();
    assert_eq!(table.render_with(&rows, 40, &letters()).unwrap(), first);
    table.up();
    let fewer = table.render_with(&vec![&files[0]], 40, &letters()).unwrap();
    assert!(fewer.contains("<g>a"));
    assert!(table.render(&rows, 40).is_some());
}

#[test]
fn keys_are_commands() {
    let key = |key: Key, control: bool| respond(KeyState::Global, Input::Key { key, control }).1;
    assert_eq!(key(Key::Char('q'), false), Response::Quit);
    assert_eq!(key(Key::Char('c'), true), Response::Quit);
    assert_eq!(key(Key::Char('c'), false), Response::Nothing);
    assert_eq!(key(Key::Char('d'), true), Response::ScrollDown);
    assert_eq!(key(Key::Char('u'), true), Response::ScrollUp);
    assert_eq!(key(Key::Char('u'), false), Response::Table(TableEvent::Unmark));
    assert_eq!(key(Key::Char('m'), false), Response::Table(TableEvent::Mark));
    assert_eq!(key(Key::Char('+'), false), Response::Table(TableEvent::ToggleTotal));
    assert_eq!(key(Key::Char('g'), false), Response::Table(TableEvent::First));
    assert_eq!(key(Key::KeypadBegin, false), Response::Table(TableEvent::First));
    assert_eq!(key(Key::Char('G'), false), Response::Table(TableEvent::Last));
    assert_eq!(key(Key::End, false), Response::Table(TableEvent::Last));
    assert_eq!(key(Key::Char('j'), false), Response::Table(TableEvent::Down));
    assert_eq!(key(Key::Down, false), Response::Table(TableEvent::Down));
    assert_eq!(key(Key::Char('k'), false), Response::Table(TableEvent::Up));
    assert_eq!(key(Key::Up, false), Response::Table(TableEvent::Up));
    assert_eq!(key(Key::Tab, false), Response::Table(TableEvent::ToggleSub));
    assert_eq!(key(Key::Escape, false), Response::Table(TableEvent::UnfocusSection));
    assert_eq!(key(Key::Other, false), Response::Nothing);
}

#[test]
fn prefixes_wait_for_one_key() {
    let key = |state: KeyState, key: Key| respond(state, Input::Key { key, control: false });
    let (state, response) = key(KeyState::Global, Key::Char('t'));
    assert_eq!((state, response), (KeyState::ToggleSection, Response::Nothing));
    assert_eq!(
        key(state, Key::Char('q')),
        (KeyState::Global, Response::Table(TableEvent::ToggleSection('q')))
    );
    let (state, _) = key(KeyState::Global, Key::Char('f'));
    assert_eq!(
        key(state, Key::Char('p')),
        (KeyState::Global, Response::Table(TableEvent::FocusSection('p')))
    );
    assert_eq!(
        key(state, Key::Down),
        (KeyState::Global, Response::Table(TableEvent::Down))
    );
    assert_eq!(respond(state, Input::ScrollUp), (state, Response::ScrollUp));
    assert_eq!(respond(state, Input::Other), (state, Response::Nothing));
}

#[test]
fn frames_fill_the_terminal() {
    assert_eq!(frame("a\r\nb\r\nc\r\n", 1, 4, 2), "b\r\nc");
    assert_eq!(frame("a\r\nb\r\n", 0, 3, 4), "a\r\nb   \r\n   ");
    assert_eq!(frame("a", 5, 2, 2), "  \r\n  ");
}

#[test]
fn the_screen_scrolls_and_draws() {
    let mut screen = Screen::new();
    let torrents = [progress("name")];
    let rows: Vec<&Progress> = torrents.iter().collect();
    let top = screen.draw_with(&rows, 100, 3, &plain()).unwrap();
    assert!(top.starts_with('╭'));
    assert!(screen.handle(Input::ScrollDown));
    assert_eq!(screen.vertical_position, 3);
    let below = screen.draw_with(&rows, 100, 3, &plain()).unwrap();
    assert!(below.starts_with("│  ▶") && !below.starts_with('╭'));
    assert!(screen.handle(Input::ScrollUp) && screen.handle(Input::ScrollUp));
    assert_eq!(screen.vertical_position, 0);
    assert!(screen.handle(Input::Key { key: Key::Char('t'), control: false }));
    assert!(screen.handle(Input::Key { key: Key::Char('t'), control: false }));
    let open = screen.draw_with(&rows, 100, 30, &plain()).unwrap();
    assert!(open.contains("udp://t"));
    assert!(screen.draw(&rows, 100, 30).is_some());
    assert!(!screen.handle(Input::Key { key: Key::Char('q'), control: false }));
}
