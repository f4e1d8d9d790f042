//! Colors of the terminal.

use crate::text;
use vstd::prelude::*;

verus! {

/// The colors that tables use.
#[derive(Clone, Copy, Debug, PartialEq, Eq, Structural)]
pub enum Color {
    Green,
    White,
    Red,
    Yellow,
    Magenta,
}

/// The number of a color among the terminal's.
pub open spec fn color_number(color: Color) -> Seq<char> {
    match color {
        Color::Green => seq!['1', '0'],
        Color::White => seq!['1', '5'],
        Color::Red => seq!['9'],
        Color::Yellow => seq!['1', '1'],
        Color::Magenta => seq!['1', '3'],
    }
}

/// The control sequence that switches to a color.
pub open spec fn color_code(color: Color) -> Seq<char> {
    seq!['\u{1b}', '[', '3', '8', ';', '5', ';'] + color_number(color) + seq!['m']
}

/// What switches to a color: the color's control sequence, one without
/// parameters, or nothing.
pub open spec fn switches_to(code: Seq<char>, color: Color) -> bool {
    code == color_code(color) || code == seq!['\u{1b}', '[', 'm'] || code == Seq::<char>::empty()
}

/// What switches back to the usual color: its control sequence, or nothing.
pub open spec fn switches_back(code: Seq<char>) -> bool {
    code == seq!['\u{1b}', '[', '0', 'm'] || code == Seq::<char>::empty()
}

/// Formats crossterm's `SetForegroundColor`. It writes the control sequence of
/// the color; one without parameters where colors are switched off (which
/// depends on the environment); or nothing where the terminal takes no control
/// sequences (which depends on the machine). Which of the three it is, is left
/// open.
#[verifier::external_body]
fn foreground(color: Color) -> (r: String)
    ensures
        switches_to(r@, color),
{
    crossterm::style::SetForegroundColor(match color {
        Color::Green => crossterm::style::Color::Green,
        Color::White => crossterm::style::Color::White,
        Color::Red => crossterm::style::Color::Red,
        Color::Yellow => crossterm::style::Color::Yellow,
        Color::Magenta => crossterm::style::Color::Magenta,
    }).to_string()
}

/// Formats crossterm's `ResetColor`. It writes its control sequence, or nothing
/// where the terminal takes no control sequences (which depends on the machine).
#[verifier::external_body]
fn reset_color() -> (r: String)
    ensures
        switches_back(r@),
{
    crossterm::style::ResetColor.to_string()
}

/// What switches to each color and back.
#[derive(Debug)]
pub struct Palette {
    pub green: String,
    pub white: String,
    pub red: String,
    pub yellow: String,
    pub magenta: String,
    pub reset: String,
}

/// A palette's contents.
#[verifier::ext_equal]
pub struct PaletteModel {
    pub green: Seq<char>,
    pub white: Seq<char>,
    pub red: Seq<char>,
    pub yellow: Seq<char>,
    pub magenta: Seq<char>,
    pub reset: Seq<char>,
}

impl View for Palette {
    type V = PaletteModel;

    open spec fn view(&self) -> PaletteModel {
        PaletteModel {
            green: self.green@,
            white: self.white@,
            red: self.red@,
            yellow: self.yellow@,
            magenta: self.magenta@,
            reset: self.reset@,
        }
    }
}

impl PaletteModel {
    /// What switches to a color.
    pub open spec fn code(self, color: Color) -> Seq<char> {
        match color {
            Color::Green => self.green,
            Color::White => self.white,
            Color::Red => self.red,
            Color::Yellow => self.yellow,
            Color::Magenta => self.magenta,
        }
    }

    /// The palette is one that a terminal can have.
    pub open spec fn of_terminal(self) -> bool {
        &&& forall|color: Color| switches_to(#[trigger] self.code(color), color)
        &&& switches_back(self.reset)
    }

    /// Every code is a control sequence or nothing.
    pub open spec fn invisible(self) -> bool {
        &&& forall|color: Color| is_code(#[trigger] self.code(color))
        &&& is_code(self.reset)
    }
}

/// A control sequence, or nothing.
pub open spec fn is_code(s: Seq<char>) -> bool {
    s.len() == 0 || {
        &&& s.len() >= 3
        &&& s[0] == '\u{1b}'
        &&& s[1] == '['
        &&& s.last() == 'm'
        &&& forall|i: int| 2 <= i < s.len() - 1 ==> !('@' <= #[trigger] s[i] <= '~')
    }
}

/// No code of a terminal's palette takes a column.
pub proof fn law_terminal_codes(p: PaletteModel)
    requires
        p.of_terminal(),
    ensures
        p.invisible(),
{
    assert forall|color: Color| is_code(#[trigger] p.code(color)) by {
        assert(switches_to(p.code(color), color));
    }
}

impl Palette {
    /// The palette of this terminal.
    pub fn current() -> (r: Palette)
        ensures
            r@.of_terminal(),
    {
        let r = Palette {
            green: foreground(Color::Green),
            white: foreground(Color::White),
            red: foreground(Color::Red),
            yellow: foreground(Color::Yellow),
            magenta: foreground(Color::Magenta),
            reset: reset_color(),
        };
        assert forall|color: Color| switches_to(#[trigger] r@.code(color), color) by {}
        r
    }

    /// Appends what switches to a color.
    pub fn push_code(&self, out: &mut String, color: Color)
        ensures
            final(out)@ == old(out)@ + self@.code(color),
    {
        match color {
            Color::Green => out.append(self.green.as_str()),
            Color::White => out.append(self.white.as_str()),
            Color::Red => out.append(self.red.as_str()),
            Color::Yellow => out.append(self.yellow.as_str()),
            Color::Magenta => out.append(self.magenta.as_str()),
        }
    }
}

/// What a control sequence is followed by decides alone how many columns a text
/// takes.
pub proof fn law_codes_take_no_width(code: Seq<char>, rest: Seq<char>)
    requires
        is_code(code),
    ensures
        text::visible_width_of(code + rest) == text::visible_width_of(rest),
{
    let s = code + rest;
    if code.len() > 0 {
        assert(s.take(code.len() as int) =~= code);
        assert(s.skip(code.len() as int) =~= rest);
        lemma_code_end(s, code, 2);
        lemma_width_shift(s, rest, code.len() as int, 0);
    } else {
        assert(s =~= rest);
    }
}

/// A text without control sequences.
pub open spec fn is_plain(s: Seq<char>) -> bool {
    forall|i: int| 0 <= i < s.len() ==> #[trigger] s[i] != '\u{1b}'
}

/// A text without control sequences takes a column for each character.
pub proof fn law_plain_width(s: Seq<char>, rest: Seq<char>)
    requires
        is_plain(s),
    ensures
        text::visible_width_of(s + rest) == s.len() + text::visible_width_of(rest),
{
    lemma_plain_from(s, rest, 0);
}

proof fn lemma_plain_from(s: Seq<char>, rest: Seq<char>, i: int)
    requires
        is_plain(s),
        0 <= i <= s.len(),
    ensures
        text::width_from(s + rest, i) == s.len() - i + text::visible_width_of(rest),
    decreases s.len() - i,
{
    let all = s + rest;
    if i < s.len() {
        assert(all[i] == s[i]);
        lemma_plain_from(s, rest, i + 1);
    } else {
        assert(all.skip(s.len() as int) =~= rest);
        lemma_width_shift(all, rest, s.len() as int, 0);
    }
}

proof fn lemma_code_end(s: Seq<char>, code: Seq<char>, i: int)
    requires
        is_code(code),
        2 <= i < code.len(),
        s.len() >= code.len(),
        s.take(code.len() as int) == code,
    ensures
        text::control_end(s, i) == code.len(),
    decreases code.len() - i,
{
    assert(s[i] == s.take(code.len() as int)[i]);
    if i < code.len() - 1 {
        lemma_code_end(s, code, i + 1);
    }
}

/// The end of a text takes as many columns by itself as within it.
pub proof fn lemma_width_shift(s: Seq<char>, rest: Seq<char>, n: int, i: int)
    requires
        0 <= n <= s.len(),
        rest == s.skip(n),
        0 <= i <= rest.len(),
    ensures
        text::width_from(s, n + i) == text::width_from(rest, i),
    decreases rest.len() - i,
{
    if i < rest.len() {
        assert(s[n + i] == rest[i]);
        if i + 1 < rest.len() {
            assert(s[n + i + 1] == rest[i + 1]);
        }
        if text::control_at(rest, i) {
            lemma_control_shift(s, rest, n, i + 2);
            text::lemma_control_end(rest, i + 2);
            lemma_width_shift(s, rest, n, text::control_end(rest, i + 2));
        } else {
            lemma_width_shift(s, rest, n, i + 1);
        }
    }
}

proof fn lemma_control_shift(s: Seq<char>, rest: Seq<char>, n: int, i: int)
    requires
        0 <= n <= s.len(),
        rest == s.skip(n),
        0 <= i <= rest.len(),
    ensures
        text::control_end(s, n + i) == n + text::control_end(rest, i),
    decreases rest.len() - i,
{
    if i < rest.len() {
        assert(s[n + i] == rest[i]);
        lemma_control_shift(s, rest, n, i + 1);
    }
}

} // verus!
