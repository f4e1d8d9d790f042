//! What keys do, and what the terminal shows.

use crate::rows;
use crate::style::{Palette, PaletteModel};
use crate::table;
use crate::table::state;
use crate::table::state::{TableEvent, TableModel, TableState};
use crate::table::{Row, Table};
use crate::text;
use crate::torrent::control::Progress;
use vstd::prelude::*;

verus! {

/// How many lines the terminal scrolls at a time.
pub const SCROLL_LINES: usize = 3;

/// What the next key is for.
#[derive(Clone, Copy, Debug, PartialEq, Eq, Structural)]
pub enum KeyState {
    Global,
    ToggleSection,
    FocusSection,
}

/// A key.
#[derive(Clone, Copy, Debug, PartialEq, Eq, Structural)]
pub enum Key {
    Char(char),
    Escape,
    Tab,
    Up,
    Down,
    End,
    KeypadBegin,
    Other,
}

/// Something that the terminal was given.
#[derive(Clone, Copy, Debug, PartialEq, Eq, Structural)]
pub enum Input {
    Key { key: Key, control: bool },
    ScrollUp,
    ScrollDown,
    Other,
}

/// What is to be done.
#[derive(Clone, Copy, Debug, PartialEq, Eq, Structural)]
pub enum Response {
    Nothing,
    Quit,
    ScrollUp,
    ScrollDown,
    Table(TableEvent),
}

/// What a key does when none was pressed before it that it belongs to.
pub open spec fn global_response(key: Key, control: bool) -> (KeyState, Response) {
    let global = KeyState::Global;
    if control && key == Key::Char('c') || key == Key::Char('q') {
        (global, Response::Quit)
    } else if control && key == Key::Char('d') {
        (global, Response::ScrollDown)
    } else if control && key == Key::Char('u') {
        (global, Response::ScrollUp)
    } else if key == Key::Char('t') {
        (KeyState::ToggleSection, Response::Nothing)
    } else if key == Key::Char('f') {
        (KeyState::FocusSection, Response::Nothing)
    } else if key == Key::Escape {
        (global, Response::Table(TableEvent::UnfocusSection))
    } else if key == Key::Char('m') {
        (global, Response::Table(TableEvent::Mark))
    } else if key == Key::Char('u') {
        (global, Response::Table(TableEvent::Unmark))
    } else if key == Key::Char('+') {
        (global, Response::Table(TableEvent::ToggleTotal))
    } else if key == Key::Char('g') || key == Key::KeypadBegin {
        (global, Response::Table(TableEvent::First))
    } else if key == Key::Char('G') || key == Key::End {
        (global, Response::Table(TableEvent::Last))
    } else if key == Key::Char('j') || key == Key::Down {
        (global, Response::Table(TableEvent::Down))
    } else if key == Key::Char('k') || key == Key::Up {
        (global, Response::Table(TableEvent::Up))
    } else if key == Key::Tab {
        (global, Response::Table(TableEvent::ToggleSub))
    } else {
        (global, Response::Nothing)
    }
}

/// What an input does. A character behind `t` or `f` is the key of a section.
pub open spec fn response_of(key_state: KeyState, input: Input) -> (KeyState, Response) {
    match input {
        Input::Key { key: Key::Char(c), control } => match key_state {
            KeyState::ToggleSection => (
                KeyState::Global,
                Response::Table(TableEvent::ToggleSection(c)),
            ),
            KeyState::FocusSection => (
                KeyState::Global,
                Response::Table(TableEvent::FocusSection(c)),
            ),
            KeyState::Global => global_response(Key::Char(c), control),
        },
        Input::Key { key, control } => global_response(key, control),
        Input::ScrollUp => (key_state, Response::ScrollUp),
        Input::ScrollDown => (key_state, Response::ScrollDown),
        Input::Other => (key_state, Response::Nothing),
    }
}

/// A key that waits for another waits for one only.
pub proof fn law_prefix_waits_once(key_state: KeyState, key: Key, control: bool)
    requires
        key_state != KeyState::Global,
        key is Char,
    ensures
        response_of(key_state, Input::Key { key, control }).0 == KeyState::Global,
        response_of(key_state, Input::Key { key, control }).1 is Table,
{
}

/// What a key does when none was pressed before it that it belongs to.
fn respond_globally(key: Key, control: bool) -> (r: (KeyState, Response))
    ensures
        r == global_response(key, control),
{
    let event = match key {
        Key::Char('c') if control => {
            return (KeyState::Global, Response::Quit);
        },
        Key::Char('q') => {
            return (KeyState::Global, Response::Quit);
        },
        Key::Char('d') if control => {
            return (KeyState::Global, Response::ScrollDown);
        },
        Key::Char('u') if control => {
            return (KeyState::Global, Response::ScrollUp);
        },
        Key::Char('t') => {
            return (KeyState::ToggleSection, Response::Nothing);
        },
        Key::Char('f') => {
            return (KeyState::FocusSection, Response::Nothing);
        },
        Key::Escape => TableEvent::UnfocusSection,
        Key::Char('m') => TableEvent::Mark,
        Key::Char('u') => TableEvent::Unmark,
        Key::Char('+') => TableEvent::ToggleTotal,
        Key::Char('g') | Key::KeypadBegin => TableEvent::First,
        Key::Char('G') | Key::End => TableEvent::Last,
        Key::Char('j') | Key::Down => TableEvent::Down,
        Key::Char('k') | Key::Up => TableEvent::Up,
        Key::Tab => TableEvent::ToggleSub,
        _ => {
            return (KeyState::Global, Response::Nothing);
        },
    };
    (KeyState::Global, Response::Table(event))
}

/// What an input does.
pub fn respond(key_state: KeyState, input: Input) -> (r: (KeyState, Response))
    ensures
        r == response_of(key_state, input),
{
    match input {
        Input::Key { key: Key::Char(c), control } => match key_state {
            KeyState::ToggleSection => (
                KeyState::Global,
                Response::Table(TableEvent::ToggleSection(c)),
            ),
            KeyState::FocusSection => (
                KeyState::Global,
                Response::Table(TableEvent::FocusSection(c)),
            ),
            KeyState::Global => respond_globally(Key::Char(c), control),
        },
        Input::Key { key, control } => respond_globally(key, control),
        Input::ScrollUp => (key_state, Response::ScrollUp),
        Input::ScrollDown => (key_state, Response::ScrollDown),
        Input::Other => (key_state, Response::Nothing),
    }
}

/// The first line in sight after an input.
pub open spec fn scrolled(position: int, response: Response) -> int {
    match response {
        Response::ScrollDown => position + SCROLL_LINES,
        Response::ScrollUp => if position >= SCROLL_LINES {
            position - SCROLL_LINES
        } else {
            0
        },
        _ => position,
    }
}

/// Scrolling down goes three lines further, and up three lines back but not above
/// the first; up undoes down. Nothing else scrolls.
pub proof fn law_scrolling(position: int, response: Response)
    requires
        position >= 0,
    ensures
        scrolled(position, Response::ScrollDown) == position + 3,
        position >= 3 ==> scrolled(position, Response::ScrollUp) == position - 3,
        position < 3 ==> scrolled(position, Response::ScrollUp) == 0,
        scrolled(scrolled(position, Response::ScrollDown), Response::ScrollUp) == position,
        response != Response::ScrollUp && response != Response::ScrollDown ==> scrolled(
            position,
            response,
        ) == position,
{
}

/// The lines that are in sight, one after the other.
pub open spec fn window(lines: Seq<Seq<char>>, from: nat, height: nat) -> Seq<char> {
    let start = if from < lines.len() {
        from as int
    } else {
        lines.len() as int
    };
    let end = if start + height < lines.len() {
        start + height
    } else {
        lines.len() as int
    };
    text::joined(lines.subrange(start, end), "\r\n"@)
}

/// `n` blank lines.
pub open spec fn blank_lines(n: nat, width: nat) -> Seq<char>
    decreases n,
{
    if n == 0 {
        Seq::empty()
    } else if n == 1 {
        text::repeated(' ', width as int)
    } else {
        blank_lines((n - 1) as nat, width) + "\r\n"@ + text::repeated(' ', width as int)
    }
}

/// What the terminal shows of a text: the lines in sight, and blank lines for
/// those that are missing.
pub open spec fn frame_of(content: Seq<char>, from: nat, width: u16, height: u16) -> Seq<char> {
    let shown = window(text::lines_of(content), from, height as nat);
    let n = text::lines_of(shown).len();
    shown + blank_lines(
        if n < height {
            (height - n) as nat
        } else {
            0
        },
        width as nat,
    )
}

/// Appends blank lines.
fn push_blank_lines(out: &mut String, n: usize, width: usize)
    ensures
        final(out)@ == old(out)@ + blank_lines(n as nat, width as nat),
{
    let mut l: usize = 0;
    assert(out@ =~= old(out)@ + blank_lines(0, width as nat));
    while l < n
        invariant
            l <= n,
            out@ == old(out)@ + blank_lines(l as nat, width as nat),
        decreases n - l,
    {
        if l > 0 {
            out.append("\r\n");
        }
        text::push_n(out, ' ', width);
        l += 1;
        assert(out@ =~= old(out)@ + blank_lines(l as nat, width as nat));
    }
}

/// What the terminal shows of a text.
pub fn frame(content: &str, from: usize, width: u16, height: u16) -> (r: String)
    ensures
        r@ == frame_of(content@, from as nat, width, height),
{
    let lines = text::lines(content);
    let total = lines.len();
    let start = if from < total {
        from
    } else {
        total
    };
    let end = if total - start > height as usize {
        start + height as usize
    } else {
        total
    };
    let ghost all = text::texts(lines@);
    let mut shown: Vec<String> = Vec::new();
    let mut i = start;
    assert(text::texts(shown@) =~= all.subrange(start as int, start as int));
    while i < end
        invariant
            start <= i <= end <= lines@.len(),
            all == text::texts(lines@),
            text::texts(shown@) == all.subrange(start as int, i as int),
        decreases end - i,
    {
        let ghost before = text::texts(shown@);
        shown.push(lines[i].clone());
        proof {
            assert(text::texts(shown@) =~= before.push(all[i as int]));
            assert(all.subrange(start as int, i + 1) =~= before.push(all[i as int]));
        }
        i += 1;
    }
    assert(text::texts(shown@).skip(0) =~= all.subrange(start as int, end as int));
    let mut r = text::join_from(&shown, 0, "\r\n");
    let n = text::lines(r.as_str()).len();
    proof {
        assert(r@ == window(text::lines_of(content@), from as nat, height as nat));
    }
    let fill = (height as usize).saturating_sub(n);
    push_blank_lines(&mut r, fill, width as usize);
    r
}

/// The screen: the table of torrents, its memory, and how far it is scrolled.
#[derive(Debug)]
pub struct Screen {
    pub table: Table<Progress>,
    pub state: TableState,
    pub vertical_position: usize,
    pub key_state: KeyState,
}

/// What the screen shows, if it can, and what the table remembers then.
pub open spec fn drawn(
    rows: Seq<&Progress>,
    padding: nat,
    m: TableModel,
    from: nat,
    width: u16,
    height: u16,
    palette: PaletteModel,
) -> Option<(Seq<char>, TableModel)> {
    match table::rendered(rows, padding, m, width as nat, palette) {
        Some((content, m)) => Some((frame_of(content, from, width, height), m)),
        None => None,
    }
}

impl Screen {
    /// The memory fits the table of torrents.
    pub open spec fn wf(self) -> bool {
        state::fits(self.state.model(), Progress::shape())
    }

    /// An empty screen.
    pub fn new() -> (r: Screen)
        ensures
            r.wf(),
            r.table.padding() == 2,
            r.state.model() == table::fresh_table::<Progress>(true),
            r.vertical_position == 0,
            r.key_state == KeyState::Global,
    {
        proof {
            rows::lemma_torrent_columns();
        }
        Screen {
            table: Table::<Progress>::new(2),
            state: TableState::new::<Progress>(true),
            vertical_position: 0,
            key_state: KeyState::Global,
        }
    }

    /// Takes an input, and says whether to go on.
    pub fn handle(&mut self, input: Input) -> (r: bool)
        requires
            old(self).wf(),
            response_of(old(self).key_state, input).1 == Response::ScrollDown ==> old(
                self,
            ).vertical_position <= usize::MAX - SCROLL_LINES,
        ensures
            final(self).wf(),
            ({
                let (key_state, response) = response_of(old(self).key_state, input);
                &&& final(self).key_state == key_state
                &&& final(self).table == old(self).table
                &&& r == (response != Response::Quit)
                &&& final(self).vertical_position == scrolled(
                    old(self).vertical_position as int,
                    response,
                )
                &&& final(self).state.model() == match response {
                    Response::Table(event) => state::handled(
                        old(self).state.model(),
                        event,
                        false,
                    ).0,
                    _ => old(self).state.model(),
                }
            }),
    {
        let (key_state, response) = respond(self.key_state, input);
        self.key_state = key_state;
        match response {
            Response::Nothing => {},
            Response::Quit => {
                return false;
            },
            Response::ScrollDown => {
                self.vertical_position += SCROLL_LINES;
            },
            Response::ScrollUp => {
                self.vertical_position = self.vertical_position.saturating_sub(SCROLL_LINES);
            },
            Response::Table(event) => {
                assert(state::sound(self.state.model())) by {
                    assert(state::fits(self.state.model(), Progress::shape()));
                }
                self.state.handle_event(event);
            },
        }
        true
    }

    /// What the terminal shows in the colors of a palette, if it can.
    pub fn draw_with(
        &mut self,
        rows: &Vec<&Progress>,
        width: u16,
        height: u16,
        palette: &Palette,
    ) -> (r: Option<String>)
        requires
            old(self).wf(),
        ensures
            final(self).wf(),
            *final(self) == (Screen { state: final(self).state, ..*old(self) }),
            match r {
                Some(t) => drawn(
                    rows@,
                    old(self).table.padding(),
                    old(self).state.model(),
                    old(self).vertical_position as nat,
                    width,
                    height,
                    palette@,
                ) == Some((t@, final(self).state.model())),
                None => drawn(
                    rows@,
                    old(self).table.padding(),
                    old(self).state.model(),
                    old(self).vertical_position as nat,
                    width,
                    height,
                    palette@,
                ) is None,
            },
    {
        match self.table.render_with(rows, &mut self.state, width as usize, palette) {
            Some(content) => Some(frame(content.as_str(), self.vertical_position, width, height)),
            None => None,
        }
    }

    /// What the terminal shows in its own colors, if it can. Which colors those
    /// are rests on the environment.
    pub fn draw(&mut self, rows: &Vec<&Progress>, width: u16, height: u16) -> (r: Option<String>)
        requires
            old(self).wf(),
        ensures
            final(self).wf(),
            *final(self) == (Screen { state: final(self).state, ..*old(self) }),
            exists|palette: PaletteModel|
                palette.of_terminal() && match r {
                    Some(t) => (#[trigger] drawn(
                        rows@,
                        old(self).table.padding(),
                        old(self).state.model(),
                        old(self).vertical_position as nat,
                        width,
                        height,
                        palette,
                    )) == Some((t@, final(self).state.model())),
                    None => drawn(
                        rows@,
                        old(self).table.padding(),
                        old(self).state.model(),
                        old(self).vertical_position as nat,
                        width,
                        height,
                        palette,
                    ) is None,
                },
    {
        let palette = Palette::current();
        self.draw_with(rows, width, height, &palette)
    }
}

} // verus!
