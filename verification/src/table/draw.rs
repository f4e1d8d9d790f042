//! The lines that tables are drawn with.

use super::layout;
use super::layout::{Alignment, Column, ColumnModel};
use crate::style;
use crate::style::{Color, Palette, PaletteModel};
use crate::text;
use vstd::prelude::*;

verus! {

/// Where a line between rows stands.
#[derive(Clone, Copy, Debug, PartialEq, Eq, Structural)]
pub enum Junction {
    Top,
    Center,
    Bottom,
    SubTop,
    SubBottom,
    SubTotal,
    SubLast,
}

/// How the table being drawn looks.
#[derive(Debug)]
pub struct Frame<'a> {
    pub padding: usize,
    pub focused: bool,
    pub widths: &'a Vec<usize>,
    pub columns: &'a Vec<Column>,
    pub palette: &'a Palette,
}

/// How the table being drawn looks.
#[verifier::ext_equal]
pub struct FrameModel {
    pub padding: nat,
    pub focused: bool,
    pub widths: Seq<nat>,
    pub columns: Seq<ColumnModel>,
    pub palette: PaletteModel,
}

impl<'a> View for Frame<'a> {
    type V = FrameModel;

    open spec fn view(&self) -> FrameModel {
        FrameModel {
            padding: self.padding as nat,
            focused: self.focused,
            widths: layout::width_views(self.widths@),
            columns: layout::column_views(self.columns@),
            palette: self.palette@,
        }
    }
}

impl FrameModel {
    /// The color of the lines.
    pub open spec fn border(self) -> Color {
        if self.focused {
            Color::Green
        } else {
            Color::White
        }
    }

    /// A text in a color.
    pub open spec fn colored(self, color: Color, s: Seq<char>) -> Seq<char> {
        self.palette.code(color) + s + self.palette.reset
    }

    /// A text in the color of the lines.
    pub open spec fn bordered(self, s: Seq<char>) -> Seq<char> {
        self.colored(self.border(), s)
    }

    /// The padding beside a cell.
    pub open spec fn pad(self) -> Seq<char> {
        text::repeated(' ', self.padding as int)
    }

    /// The line between two cells.
    pub open spec fn v_separator(self, marked: bool) -> Seq<char> {
        self.colored(
            if marked && self.focused {
                Color::Magenta
            } else {
                self.border()
            },
            seq!['│'],
        )
    }

    /// A cell with its padding and the line behind it.
    pub open spec fn cell(self, c: int, cell: Seq<char>, color: Color, marked: bool) -> Seq<char> {
        self.pad() + self.colored(
            color,
            aligned(self.columns[c].alignment, cell, self.widths[c]),
        ) + self.pad() + self.v_separator(marked)
    }

    /// The first `n` cells of a row.
    pub open spec fn cells(
        self,
        cells: Seq<Seq<char>>,
        color: Color,
        marked: bool,
        n: nat,
    ) -> Seq<char>
        decreases n,
    {
        if n == 0 {
            self.v_separator(marked)
        } else {
            self.cells(cells, color, marked, (n - 1) as nat) + self.cell(
                n - 1,
                cells[n - 1],
                color,
                marked,
            )
        }
    }

    /// A row.
    pub open spec fn line(self, cells: Seq<Seq<char>>, color: Color, marked: bool) -> Seq<char> {
        self.cells(cells, color, marked, self.columns.len()) + newline()
    }

    /// The line over the first `n` columns, without its first `from` characters.
    pub open spec fn bars(self, junction: char, from: nat, n: nat) -> Seq<char>
        decreases n,
    {
        if n == 0 {
            Seq::empty()
        } else {
            let inner = 2 * self.padding + self.widths[n - 1];
            let end = layout::span(self.padding, self.widths, (n - 1) as nat) + inner;
            self.bars(junction, from, (n - 1) as nat) + text::repeated(
                '─',
                if end - from < inner {
                    end - from
                } else {
                    inner as int
                },
            ) + if n < self.widths.len() && end + 1 > from {
                seq![junction]
            } else {
                Seq::empty()
            }
        }
    }

    /// A line between rows, with `sections` in it.
    pub open spec fn h_separator(self, junction: Junction, sections: Seq<char>) -> Seq<char> {
        let (left, middle, right) = junction_chars_of(junction);
        self.bordered(seq![left] + text::repeated('─', self.padding as int)) + sections
            + self.bordered(
            self.bars(
                middle,
                self.padding + text::visible_width_of(sections),
                self.widths.len(),
            ) + seq![right],
        ) + newline()
    }

    /// A line of a section, if it fits.
    pub open spec fn section_line(self, line: Seq<char>, marked: bool, width: nat) -> Option<
        Seq<char>,
    > {
        let used = text::visible_width_of(line) + self.padding + 2;
        if used > width {
            None
        } else {
            Some(
                self.v_separator(marked) + self.pad() + line + text::repeated(' ', width - used)
                    + self.v_separator(marked) + newline(),
            )
        }
    }

    /// The lines of a section, if they fit.
    pub open spec fn section_lines(
        self,
        lines: Seq<Seq<char>>,
        marked: bool,
        width: nat,
    ) -> Option<Seq<char>>
        decreases lines.len(),
    {
        if lines.len() == 0 {
            Some(Seq::empty())
        } else {
            match (
                self.section_lines(lines.drop_last(), marked, width),
                self.section_line(lines.last(), marked, width),
            ) {
                (Some(before), Some(line)) => Some(before + line),
                _ => None,
            }
        }
    }
}

/// What ends a line.
pub open spec fn newline() -> Seq<char> {
    seq!['\r', '\n']
}

/// A text filled up with spaces. One that is too long stays as it is.
pub open spec fn aligned(alignment: Alignment, s: Seq<char>, width: nat) -> Seq<char> {
    match alignment {
        Alignment::Left => text::left_aligned(s, width),
        Alignment::Right => text::right_aligned(s, width),
    }
}

/// The left end, the crossings and the right end of a line between rows.
pub open spec fn junction_chars_of(junction: Junction) -> (char, char, char) {
    match junction {
        Junction::Top => ('╭', '┬', '╮'),
        Junction::Center => ('├', '┼', '┤'),
        Junction::Bottom => ('╰', '┴', '╯'),
        Junction::SubTop => ('├', '┴', '┤'),
        Junction::SubBottom => ('├', '┬', '┤'),
        Junction::SubTotal => ('├', '┬', '┤'),
        Junction::SubLast => ('╰', '─', '╯'),
    }
}

/// The left end, the crossings and the right end of a line between rows.
pub fn junction_chars(junction: Junction) -> (r: (char, char, char))
    ensures
        r == junction_chars_of(junction),
{
    match junction {
        Junction::Top => ('╭', '┬', '╮'),
        Junction::Center => ('├', '┼', '┤'),
        Junction::Bottom => ('╰', '┴', '╯'),
        Junction::SubTop => ('├', '┴', '┤'),
        Junction::SubBottom => ('├', '┬', '┤'),
        Junction::SubTotal => ('├', '┬', '┤'),
        Junction::SubLast => ('╰', '─', '╯'),
    }
}

/// Appends what ends a line.
pub fn push_newline(out: &mut String)
    ensures
        final(out)@ == old(out)@ + newline(),
{
    out.push('\r');
    out.push('\n');
    assert(out@ =~= old(out)@ + newline());
}

impl<'a> Frame<'a> {
    /// The sizes of the table can be counted.
    pub open spec fn counted(&self) -> bool {
        &&& self.widths@.len() == self.columns@.len()
        &&& layout::span(self@.padding, self@.widths, self@.widths.len()) <= usize::MAX
    }

    /// The color of the lines.
    pub fn border(&self) -> (r: Color)
        ensures
            r == self@.border(),
    {
        if self.focused {
            Color::Green
        } else {
            Color::White
        }
    }

    /// Appends a text in a color.
    pub fn push_colored(&self, out: &mut String, color: Color, s: &str)
        ensures
            final(out)@ == old(out)@ + self@.colored(color, s@),
    {
        self.palette.push_code(out, color);
        out.append(s);
        out.append(self.palette.reset.as_str());
        assert(out@ =~= old(out)@ + self@.colored(color, s@));
    }

    /// Appends the line between two cells.
    pub fn push_v_separator(&self, out: &mut String, marked: bool)
        ensures
            final(out)@ == old(out)@ + self@.v_separator(marked),
    {
        let mut bar = String::new();
        bar.push('│');
        assert(bar@ =~= seq!['│']);
        self.push_colored(
            out,
            if marked && self.focused {
                Color::Magenta
            } else {
                self.border()
            },
            bar.as_str(),
        );
    }

    /// Appends a cell with its padding and the line behind it.
    fn push_cell(&self, out: &mut String, c: usize, cell: &str, color: Color, marked: bool)
        requires
            self.widths@.len() == self.columns@.len(),
            c < self.columns@.len(),
        ensures
            final(out)@ == old(out)@ + self@.cell(c as int, cell@, color, marked),
    {
        let width = self.widths[c];
        let n = text::length(cell);
        let fill = width.saturating_sub(n);
        let mut shown = String::new();
        match self.columns[c].alignment {
            Alignment::Left => {
                shown.append(cell);
                text::push_n(&mut shown, ' ', fill);
            },
            Alignment::Right => {
                text::push_n(&mut shown, ' ', fill);
                shown.append(cell);
            },
        }
        proof {
            assert(text::repeated(' ', fill as int) =~= text::repeated(' ', width - n));
            assert(shown@ =~= aligned(
                self@.columns[c as int].alignment,
                cell@,
                self@.widths[c as int],
            ));
        }
        text::push_n(out, ' ', self.padding);
        self.push_colored(out, color, shown.as_str());
        text::push_n(out, ' ', self.padding);
        self.push_v_separator(out, marked);
        assert(out@ =~= old(out)@ + self@.cell(c as int, cell@, color, marked));
    }

    /// Appends a row.
    pub fn push_line(&self, out: &mut String, cells: &Vec<String>, color: Color, marked: bool)
        requires
            self.widths@.len() == self.columns@.len(),
            cells@.len() == self.columns@.len(),
        ensures
            final(out)@ == old(out)@ + self@.line(text::texts(cells@), color, marked),
    {
        let ghost all = text::texts(cells@);
        self.push_v_separator(out, marked);
        let mut c: usize = 0;
        while c < self.columns.len()
            invariant
                c <= self.columns@.len(),
                self.widths@.len() == self.columns@.len(),
                cells@.len() == self.columns@.len(),
                all == text::texts(cells@),
                out@ == old(out)@ + self@.cells(all, color, marked, c as nat),
            decreases self.columns@.len() - c,
        {
            let ghost before = out@;
            self.push_cell(out, c, cells[c].as_str(), color, marked);
            proof {
                let next = self@.cell(c as int, all[c as int], color, marked);
                assert(out@ == before + next);
                lemma_append(old(out)@, self@.cells(all, color, marked, c as nat), next);
            }
            c += 1;
        }
        push_newline(out);
        assert(out@ =~= old(out)@ + self@.line(all, color, marked));
    }

    /// Appends the line over the columns, without its first `from` characters.
    pub fn push_bars(&self, out: &mut String, junction: char, from: u128)
        requires
            self.counted(),
        ensures
            final(out)@ == old(out)@ + self@.bars(junction, from as nat, self@.widths.len()),
    {
        let ghost f = self@;
        let mut end: usize = 0;
        let mut c: usize = 0;
        assert(out@ =~= old(out)@ + f.bars(junction, from as nat, 0));
        while c < self.widths.len()
            invariant
                c <= self.widths@.len(),
                f == self@,
                f.widths.len() == self.widths@.len(),
                self.counted(),
                end == layout::span(f.padding, f.widths, c as nat),
                out@ == old(out)@ + f.bars(junction, from as nat, c as nat),
            decreases self.widths@.len() - c,
        {
            let ghost before = out@;
            proof {
                layout::lemma_span_part(f.padding, f.widths, c as int);
                assert(f.widths[c as int] == self.widths@[c as int]);
            }
            let inner = self.padding * 2 + self.widths[c];
            end += inner;
            let count = if end as u128 > from {
                let shown = end as u128 - from;
                if shown < inner as u128 {
                    shown as usize
                } else {
                    inner
                }
            } else {
                0
            };
            text::push_n(out, '─', count);
            proof {
                let want = if end - from < inner {
                    end - from
                } else {
                    inner as int
                };
                assert(text::repeated('─', count as int) =~= text::repeated('─', want));
            }
            end += 1;
            if c + 1 < self.widths.len() && end as u128 > from {
                out.push(junction);
            }
            proof {
                assert(out@ =~= old(out)@ + f.bars(junction, from as nat, c as nat + 1));
            }
            c += 1;
        }
    }

    /// Appends a line between rows, with `sections` in it.
    pub fn push_h_separator(&self, out: &mut String, junction: Junction, sections: &str)
        requires
            self.counted(),
        ensures
            final(out)@ == old(out)@ + self@.h_separator(junction, sections@),
    {
        let (left, middle, right) = junction_chars(junction);
        let mut start = String::new();
        start.push(left);
        text::push_n(&mut start, '─', self.padding);
        assert(start@ =~= seq![left] + text::repeated('─', self.padding as int));
        self.push_colored(out, self.border(), start.as_str());
        out.append(sections);
        let from = self.padding as u128 + text::visible_width(sections) as u128;
        let mut rest = String::new();
        self.push_bars(&mut rest, middle, from);
        rest.push(right);
        assert(rest@ =~= self@.bars(middle, from as nat, self@.widths.len()) + seq![right]);
        self.push_colored(out, self.border(), rest.as_str());
        push_newline(out);
        assert(out@ =~= old(out)@ + self@.h_separator(junction, sections@));
    }

    /// Appends the lines of a section, if they fit.
    pub fn push_section(&self, out: &mut String, content: &str, marked: bool, width: usize) -> (r:
        bool)
        ensures
            match self@.section_lines(text::lines_of(content@), marked, width as nat) {
                Some(lines) => r && final(out)@ == old(out)@ + lines,
                None => !r,
            },
    {
        let lines = text::lines(content);
        let ghost all = text::texts(lines@);
        let ghost f = self@;
        let mut i: usize = 0;
        proof {
            assert(all.take(0) =~= Seq::empty());
            assert(out@ =~= old(out)@ + Seq::<char>::empty());
        }
        while i < lines.len()
            invariant
                i <= lines@.len(),
                all == text::texts(lines@),
                all == text::lines_of(content@),
                f == self@,
                f.section_lines(all.take(i as int), marked, width as nat) matches Some(t) && out@
                    == old(out)@ + t,
            decreases lines@.len() - i,
        {
            let ghost before = out@;
            let ghost seen = all.take(i as int + 1);
            proof {
                assert(seen.drop_last() =~= all.take(i as int));
                assert(seen.last() == lines@[i as int]@);
            }
            let used = text::visible_width(lines[i].as_str()) as u128 + self.padding as u128 + 2;
            if used > width as u128 {
                proof {
                    assert(f.section_lines(seen, marked, width as nat) is None);
                    lemma_lines_missing(f, all, marked, width as nat, i as int + 1);
                }
                return false;
            }
            self.push_v_separator(out, marked);
            text::push_n(out, ' ', self.padding);
            out.append(lines[i].as_str());
            text::push_n(out, ' ', width - used as usize);
            self.push_v_separator(out, marked);
            push_newline(out);
            proof {
                let line = f.section_line(lines@[i as int]@, marked, width as nat);
                assert(out@ =~= before + line->0);
                assert(out@ =~= old(out)@ + f.section_lines(seen, marked, width as nat)->0);
            }
            i += 1;
        }
        assert(all.take(i as int) =~= all);
        true
    }
}

/// Appending twice is appending once what both append.
pub proof fn lemma_append(a: Seq<char>, b: Seq<char>, c: Seq<char>)
    ensures
        a + b + c == a + (b + c),
{
    assert(a + b + c =~= a + (b + c));
}

/// Where the first lines do not fit, all do not.
proof fn lemma_lines_missing(
    f: FrameModel,
    lines: Seq<Seq<char>>,
    marked: bool,
    width: nat,
    n: int,
)
    requires
        0 <= n <= lines.len(),
        f.section_lines(lines.take(n), marked, width) is None,
    ensures
        f.section_lines(lines, marked, width) is None,
    decreases lines.len(),
{
    if n < lines.len() {
        assert(lines.drop_last().take(n) =~= lines.take(n));
        lemma_lines_missing(f, lines.drop_last(), marked, width, n);
    } else {
        assert(lines.take(n) =~= lines);
    }
}

/// A colored text without control sequences of its own takes a column for each
/// character.
proof fn lemma_colored_width(f: FrameModel, color: Color, s: Seq<char>, rest: Seq<char>)
    requires
        f.palette.invisible(),
        style::is_plain(s),
    ensures
        text::visible_width_of(f.colored(color, s) + rest) == s.len() + text::visible_width_of(rest),
{
    let code = f.palette.code(color);
    let reset = f.palette.reset;
    assert(style::is_code(code));
    assert(f.colored(color, s) + rest =~= code + (s + (reset + rest)));
    style::law_codes_take_no_width(code, s + (reset + rest));
    style::law_plain_width(s, reset + rest);
    style::law_codes_take_no_width(reset, rest);
}

proof fn lemma_bars_plain(f: FrameModel, junction: char, n: nat)
    requires
        n <= f.widths.len(),
        junction != '\u{1b}',
    ensures
        style::is_plain(f.bars(junction, f.padding, n)),
        f.bars(junction, f.padding, n).len() == if n == 0 {
            0
        } else {
            layout::span(f.padding, f.widths, n) - f.padding - if n == f.widths.len() {
                1int
            } else {
                0int
            }
        },
    decreases n,
{
    if n > 0 {
        lemma_bars_plain(f, junction, (n - 1) as nat);
        lemma_span_at_least(f.padding, f.widths, (n - 1) as nat);
    }
}

/// Each column takes at least its padding and a separator.
proof fn lemma_span_at_least(padding: nat, widths: Seq<nat>, n: nat)
    ensures
        n > 0 ==> layout::span(padding, widths, n) >= 2 * padding + 1,
{
}

proof fn lemma_cells_width(
    f: FrameModel,
    cells: Seq<Seq<char>>,
    color: Color,
    marked: bool,
    n: nat,
    rest: Seq<char>,
)
    requires
        f.palette.invisible(),
        n <= f.columns.len(),
        f.widths.len() == f.columns.len(),
        cells.len() == f.columns.len(),
        forall|c: int|
            0 <= c < cells.len() ==> style::is_plain(#[trigger] cells[c]) && cells[c].len()
                <= f.widths[c],
    ensures
        text::visible_width_of(f.cells(cells, color, marked, n) + rest) == 1 + layout::span(
            f.padding,
            f.widths,
            n,
        ) + text::visible_width_of(rest),
    decreases n,
{
    if n == 0 {
        lemma_v_separator_width(f, marked, rest);
    } else {
        let before = f.cells(cells, color, marked, (n - 1) as nat);
        let cell = f.cell(n - 1, cells[n - 1], color, marked);
        lemma_append(before, cell, rest);
        lemma_cells_width(f, cells, color, marked, (n - 1) as nat, cell + rest);
        assert(style::is_plain(cells[n - 1]) && cells[n - 1].len() <= f.widths[n - 1]);
        lemma_cell_width(f, n - 1, cells[n - 1], color, marked, rest);
    }
}

proof fn lemma_v_separator_width(f: FrameModel, marked: bool, rest: Seq<char>)
    requires
        f.palette.invisible(),
    ensures
        text::visible_width_of(f.v_separator(marked) + rest) == 1 + text::visible_width_of(rest),
{
    let color = if marked && f.focused {
        Color::Magenta
    } else {
        f.border()
    };
    lemma_colored_width(f, color, seq!['│'], rest);
}

proof fn lemma_cell_width(
    f: FrameModel,
    c: int,
    cell: Seq<char>,
    color: Color,
    marked: bool,
    rest: Seq<char>,
)
    requires
        f.palette.invisible(),
        style::is_plain(cell),
        cell.len() <= f.widths[c],
    ensures
        text::visible_width_of(f.cell(c, cell, color, marked) + rest) == 2 * f.padding
            + f.widths[c] + 1 + text::visible_width_of(rest),
{
    let pad = f.pad();
    let bar = f.v_separator(marked);
    let shown = aligned(f.columns[c].alignment, cell, f.widths[c]);
    let colored = f.colored(color, shown);
    lemma_append(pad + colored + pad, bar, rest);
    lemma_append(pad + colored, pad, bar + rest);
    lemma_append(pad, colored, pad + (bar + rest));
    style::law_plain_width(pad, colored + (pad + (bar + rest)));
    lemma_colored_width(f, color, shown, pad + (bar + rest));
    style::law_plain_width(pad, bar + rest);
    lemma_v_separator_width(f, marked, rest);
}

/// All lines of a table are equally wide: the lines between rows, and every row
/// whose cells fit into their columns. (The line end counts for two.)
pub proof fn law_lines_equally_wide(
    f: FrameModel,
    junction: Junction,
    cells: Seq<Seq<char>>,
    color: Color,
    marked: bool,
)
    requires
        f.palette.invisible(),
        f.widths.len() > 0,
        f.widths.len() == f.columns.len(),
        cells.len() == f.columns.len(),
        forall|c: int|
            0 <= c < cells.len() ==> style::is_plain(#[trigger] cells[c]) && cells[c].len()
                <= f.widths[c],
    ensures
        text::visible_width_of(f.h_separator(junction, Seq::empty())) == 1 + layout::span(
            f.padding,
            f.widths,
            f.widths.len(),
        ) + 2,
        text::visible_width_of(f.line(cells, color, marked)) == 1 + layout::span(
            f.padding,
            f.widths,
            f.widths.len(),
        ) + 2,
{
    let none = Seq::<char>::empty();
    let end = newline();
    style::law_plain_width(end, none);
    assert(end + none =~= end);
    assert(text::visible_width_of(none) == 0);
    lemma_cells_width(f, cells, color, marked, f.columns.len(), end);
    let (left, middle, right) = junction_chars_of(junction);
    let start = seq![left] + text::repeated('─', f.padding as int);
    let bars = f.bars(middle, f.padding, f.widths.len());
    lemma_bars_plain(f, middle, f.widths.len());
    lemma_colored_width(f, f.border(), bars + seq![right], end);
    lemma_colored_width(
        f,
        f.border(),
        start,
        f.bordered(bars + seq![right]) + end,
    );
    assert(f.padding + text::visible_width_of(none) == f.padding);
    assert(f.h_separator(junction, none) =~= f.bordered(start) + (f.bordered(
        bars + seq![right],
    ) + end));
}

/// A text that fits is as wide as its column, and all of it is there: at the
/// start where the column is aligned to the left, at the end where it is aligned
/// to the right. The rest is blank.
pub proof fn law_aligned(alignment: Alignment, s: Seq<char>, width: nat, i: int)
    requires
        s.len() <= width,
        0 <= i < width,
    ensures
        ({
            let shown = aligned(alignment, s, width);
            let start = if alignment == Alignment::Left {
                0
            } else {
                width - s.len()
            };
            &&& shown.len() == width
            &&& shown[i] == if start <= i < start + s.len() {
                s[i - start]
            } else {
                ' '
            }
        }),
{
}

} // verus!
