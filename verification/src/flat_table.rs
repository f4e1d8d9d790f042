//! Tables on the terminal, whose rows can be opened to show text below them.

pub use crate::table::layout::{Alignment, Column};

use crate::style::{Color, Palette, PaletteModel};
use crate::table;
use crate::table::draw;
use crate::table::draw::{Frame, FrameModel, Junction};
use crate::table::layout;
use crate::table::layout::Cells;
use crate::text;
use std::marker::PhantomData;
use vstd::prelude::*;

verus! {

/// What a table shows. A row can have text below it.
pub trait Row: Cells {
    spec fn section_names() -> Seq<Seq<char>>;

    spec fn sub_text(&self, width: nat) -> Seq<char>;

    fn sub_sections() -> (r: Vec<String>)
        ensures
            text::texts(r@) == Self::section_names(),
    ;

    fn display_sub(&self, width: usize) -> (r: String)
        ensures
            r@ == self.sub_text(width as nat),
    ;
}

/// A table. It remembers which row is selected and which rows are open.
#[derive(Debug)]
pub struct Table<R: Row> {
    columns: Vec<Column>,
    show_total: bool,
    padding: usize,
    focused: bool,
    flex_total: usize,
    selected: usize,
    show_subs: Vec<bool>,
    rows: PhantomData<R>,
}

/// What a table is made with, and what it remembers.
#[verifier::ext_equal]
pub struct TableModel {
    pub show_total: bool,
    pub padding: nat,
    pub focused: bool,
    pub selected: nat,
    pub show_subs: Seq<bool>,
}

impl TableModel {
    /// The selected row is one of the rows.
    pub open spec fn wf(self) -> bool {
        if self.show_subs.len() == 0 {
            self.selected == 0
        } else {
            self.selected < self.show_subs.len()
        }
    }

    /// The row before the selected one selected; the last one before the first.
    pub open spec fn up(self) -> TableModel {
        let n = self.show_subs.len();
        TableModel { selected: (self.selected + n - 1) as nat % n, ..self }
    }

    /// The row behind the selected one selected; the first one behind the last.
    pub open spec fn down(self) -> TableModel {
        TableModel { selected: (self.selected + 1) % self.show_subs.len(), ..self }
    }

    /// The selected row opened if it was closed, or closed.
    pub open spec fn toggle(self) -> TableModel {
        if self.show_subs.len() > 0 {
            TableModel {
                show_subs: self.show_subs.update(
                    self.selected as int,
                    !self.show_subs[self.selected as int],
                ),
                ..self
            }
        } else {
            self
        }
    }

    /// Another number of rows: new ones are closed, and the selected row is at
    /// most the last one.
    pub open spec fn resized(self, n: nat) -> TableModel {
        TableModel {
            show_subs: Seq::new(
                n,
                |i: int|
                    if i < self.show_subs.len() {
                        self.show_subs[i]
                    } else {
                        false
                    },
            ),
            selected: if self.selected > n - 1 {
                (n - 1) as nat
            } else {
                self.selected
            },
            ..self
        }
    }
}

/// Going up and down again, or down and up again, selects the same row.
pub proof fn law_up_down(m: TableModel)
    requires
        m.wf(),
        m.show_subs.len() > 0,
    ensures
        m.up().down() == m,
        m.down().up() == m,
        m.up().wf(),
        m.down().wf(),
{
    let n = m.show_subs.len() as int;
    let s = m.selected as int;
    if s == 0 {
        vstd::arithmetic::div_mod::lemma_small_mod((n - 1) as nat, n as nat);
    } else {
        vstd::arithmetic::div_mod::lemma_mod_add_multiples_vanish(s - 1, n);
        vstd::arithmetic::div_mod::lemma_small_mod((s - 1) as nat, n as nat);
    }
    vstd::arithmetic::div_mod::lemma_small_mod(s as nat, n as nat);
    vstd::arithmetic::div_mod::lemma_mod_self_0(n);
    if s + 1 < n {
        vstd::arithmetic::div_mod::lemma_small_mod((s + 1) as nat, n as nat);
        vstd::arithmetic::div_mod::lemma_mod_add_multiples_vanish(s, n);
    } else {
        vstd::arithmetic::div_mod::lemma_small_mod((n - 1) as nat, n as nat);
    }
    assert(m.up().down() =~= m);
    assert(m.down().up() =~= m);
}

/// Toggling twice changes nothing.
pub proof fn law_toggle_twice(m: TableModel)
    requires
        m.wf(),
    ensures
        m.toggle().toggle() == m,
        m.toggle().wf(),
{
    assert(m.toggle().toggle() =~= m);
}

/// A line between rows.
pub open spec fn plain_separator(f: FrameModel, junction: Junction) -> Seq<char> {
    let (left, middle, right) = draw::junction_chars_of(junction);
    f.bordered(seq![left] + f.bars(middle, 0, f.widths.len()) + seq![right]) + draw::newline()
}

/// What is below a row, if it can be shown.
pub open spec fn sub_of<R: Row>(f: FrameModel, row: &R, width: nat) -> Option<Seq<char>> {
    if width < 2 * (f.padding + 1) {
        None
    } else {
        f.section_lines(
            text::lines_of(row.sub_text((width - 2 * (f.padding + 1)) as nat)),
            false,
            width,
        )
    }
}

/// The first `n` rows, if they can be shown.
pub open spec fn rows_upto<R: Row>(
    f: FrameModel,
    rows: Seq<&R>,
    columns: Seq<Seq<Seq<char>>>,
    m: TableModel,
    width: nat,
    n: nat,
) -> Option<Seq<char>>
    decreases n,
{
    if n == 0 {
        Some(Seq::empty())
    } else {
        match rows_upto(f, rows, columns, m, width, (n - 1) as nat) {
            None => None,
            Some(before) => {
                let line = f.line(
                    table::cells_at(columns, n as int),
                    if m.selected == n - 1 && f.focused {
                        Color::Green
                    } else {
                        Color::White
                    },
                    false,
                );
                if !m.show_subs[n - 1] {
                    Some(before + line)
                } else {
                    match sub_of(f, rows[n - 1], width) {
                        None => None,
                        Some(sub) => Some(
                            before + line + plain_separator(f, Junction::SubTop) + sub + if n
                                < rows.len() {
                                plain_separator(f, Junction::SubBottom)
                            } else {
                                Seq::empty()
                            },
                        ),
                    }
                }
            },
        }
    }
}

/// What stands below the rows.
pub open spec fn foot_of(
    f: FrameModel,
    columns: Seq<Seq<Seq<char>>>,
    m: TableModel,
    num_rows: nat,
) -> Seq<char> {
    if m.show_total {
        plain_separator(
            f,
            if m.show_subs.last() {
                Junction::SubTotal
            } else {
                Junction::Center
            },
        ) + f.line(table::cells_at(columns, num_rows as int + 1), Color::Yellow, false)
            + plain_separator(f, Junction::Bottom)
    } else {
        plain_separator(f, Junction::Bottom)
    }
}

/// What stands above the rows.
pub open spec fn head_of<R: Row>(f: FrameModel) -> Seq<char> {
    plain_separator(f, Junction::Top) + f.line(table::headers::<R>(), Color::Red, false)
        + plain_separator(f, Junction::Center)
}

/// A table, if it can be shown. One without rows cannot.
pub open spec fn rendered<R: Row>(
    rows: Seq<&R>,
    m: TableModel,
    width: nat,
    palette: PaletteModel,
) -> Option<Seq<char>> {
    if rows.len() == 0 {
        None
    } else {
        match layout::layout_of(rows, m.padding, width, m.show_total) {
            None => None,
            Some(l) => {
                let f = FrameModel {
                    padding: m.padding,
                    focused: m.focused,
                    widths: l.widths,
                    columns: R::column_models(),
                    palette,
                };
                let m = m.resized(rows.len());
                match rows_upto(f, rows, l.columns, m, width, rows.len()) {
                    None => None,
                    Some(body) => Some(
                        head_of::<R>(f) + body + foot_of(f, l.columns, m, rows.len()),
                    ),
                }
            },
        }
    }
}

/// A table that is shown and then shown again, with the same rows and in the
/// same width, shows the same, and remembers the same.
pub proof fn law_render_twice<R: Row>(
    rows: Seq<&R>,
    m: TableModel,
    width: nat,
    palette: PaletteModel,
)
    requires
        m.wf(),
        rows.len() > 0,
    ensures
        m.resized(rows.len()).wf(),
        m.resized(rows.len()).resized(rows.len()) == m.resized(rows.len()),
        rendered(rows, m.resized(rows.len()), width, palette) == rendered(rows, m, width, palette),
{
    let after = m.resized(rows.len());
    assert(after.resized(rows.len()).show_subs =~= after.show_subs);
}

/// Appends a line between rows.
fn push_separator(frame: &Frame, out: &mut String, junction: Junction)
    requires
        frame.counted(),
    ensures
        final(out)@ == old(out)@ + plain_separator(frame@, junction),
{
    let (left, middle, right) = draw::junction_chars(junction);
    let mut line = String::new();
    line.push(left);
    assert(line@ =~= seq![left]);
    frame.push_bars(&mut line, middle, 0);
    line.push(right);
    assert(line@ =~= seq![left] + frame@.bars(middle, 0, frame@.widths.len()) + seq![right]);
    frame.push_colored(out, frame.border(), line.as_str());
    draw::push_newline(out);
    assert(out@ =~= old(out)@ + plain_separator(frame@, junction));
}

proof fn lemma_rows_missing<R: Row>(
    f: FrameModel,
    rows: Seq<&R>,
    columns: Seq<Seq<Seq<char>>>,
    m: TableModel,
    width: nat,
    n: nat,
    total: nat,
)
    requires
        n <= total,
        rows_upto(f, rows, columns, m, width, n) is None,
    ensures
        rows_upto(f, rows, columns, m, width, total) is None,
    decreases total - n,
{
    if n < total {
        lemma_rows_missing(f, rows, columns, m, width, n, (total - 1) as nat);
    }
}

/// Appends what is below a row, if it can be shown.
fn push_sub<R: Row>(frame: &Frame, out: &mut String, row: &R, width: usize) -> (r: bool)
    ensures
        match sub_of(frame@, row, width as nat) {
            Some(sub) => r && final(out)@ == old(out)@ + sub,
            None => !r,
        },
{
    let margin = 2 * (frame.padding as u128 + 1);
    if (width as u128) < margin {
        return false;
    }
    let sub = row.display_sub(width - margin as usize);
    frame.push_section(out, sub.as_str(), false, width)
}

impl<R: Row> Table<R> {
    /// What the table is made with, and what it remembers.
    pub closed spec fn model(&self) -> TableModel {
        TableModel {
            show_total: self.show_total,
            padding: self.padding as nat,
            focused: self.focused,
            selected: self.selected as nat,
            show_subs: self.show_subs@,
        }
    }

    /// The table has the columns of its rows, and its selected row is one of
    /// them.
    pub closed spec fn wf(&self) -> bool {
        &&& layout::column_views(self.columns@) == R::column_models()
        &&& self.flex_total == layout::flex_sum(
            layout::column_views(self.columns@),
            self.columns@.len(),
        )
        &&& self.model().wf()
    }

    /// A table of such rows; the first one is selected, and none is open.
    pub fn new(padding: usize, show_total: bool, focused: bool) -> (r: Table<R>)
        requires
            layout::flex_sum(R::column_models(), R::column_models().len()) <= usize::MAX,
        ensures
            r.wf(),
            r.model().wf(),
            r.model() == (TableModel {
                show_total,
                padding: padding as nat,
                focused,
                selected: 0,
                show_subs: Seq::empty(),
            }),
    {
        let columns = R::columns();
        assert(layout::column_views(columns@).len() == columns@.len());
        let flex_total = table::sum_flex(&columns);
        let r = Table {
            columns,
            show_total,
            padding,
            focused,
            flex_total,
            selected: 0,
            show_subs: Vec::new(),
            rows: PhantomData,
        };
        assert(r.show_subs@ =~= Seq::empty());
        r
    }

    /// The number of rows.
    pub fn num_rows(&self) -> (r: usize)
        ensures
            r == self.model().show_subs.len(),
    {
        self.show_subs.len()
    }

    /// Selects the row before the selected one; the last one before the first.
    pub fn up(&mut self)
        requires
            old(self).wf(),
            old(self).model().show_subs.len() > 0,
        ensures
            final(self).wf(),
            final(self).model().wf(),
            final(self).model() == old(self).model().up(),
    {
        let num_rows = self.show_subs.len();
        proof {
            let n = num_rows as int;
            let s = self.selected as int;
            if s == 0 {
                vstd::arithmetic::div_mod::lemma_small_mod((n - 1) as nat, n as nat);
            } else {
                vstd::arithmetic::div_mod::lemma_mod_add_multiples_vanish(s - 1, n);
                vstd::arithmetic::div_mod::lemma_small_mod((s - 1) as nat, n as nat);
            }
        }
        self.selected = if self.selected == 0 {
            num_rows - 1
        } else {
            self.selected - 1
        };
    }

    /// Selects the row behind the selected one; the first one behind the last.
    pub fn down(&mut self)
        requires
            old(self).wf(),
            old(self).model().show_subs.len() > 0,
        ensures
            final(self).wf(),
            final(self).model().wf(),
            final(self).model() == old(self).model().down(),
    {
        let num_rows = self.show_subs.len();
        proof {
            let n = num_rows as int;
            let s = self.selected as int;
            vstd::arithmetic::div_mod::lemma_mod_self_0(n);
            if s + 1 < n {
                vstd::arithmetic::div_mod::lemma_small_mod((s + 1) as nat, n as nat);
            }
        }
        self.selected = (self.selected + 1) % num_rows;
    }

    /// Opens the selected row if it is closed, or closes it.
    pub fn toggle(&mut self)
        requires
            old(self).wf(),
        ensures
            final(self).wf(),
            final(self).model().wf(),
            final(self).model() == old(self).model().toggle(),
    {
        if self.show_subs.len() > 0 {
            let open = self.show_subs[self.selected];
            self.show_subs.set(self.selected, !open);
        }
    }

    /// Another number of rows.
    fn resize(&mut self, n: usize)
        requires
            old(self).wf(),
            n > 0,
        ensures
            final(self).wf(),
            final(self).model().wf(),
            final(self).model() == old(self).model().resized(n as nat),
    {
        let mut show_subs: Vec<bool> = Vec::new();
        let ghost want = self.model().resized(n as nat).show_subs;
        let mut i: usize = 0;
        while i < n
            invariant
                i <= n,
                self.wf(),
                want == self.model().resized(n as nat).show_subs,
                show_subs@ == want.take(i as int),
            decreases n - i,
        {
            assert(want.take(i as int + 1) =~= want.take(i as int).push(want[i as int]));
            show_subs.push(i < self.show_subs.len() && self.show_subs[i]);
            i += 1;
        }
        assert(want.take(n as int) =~= want);
        let selected = if self.selected > n - 1 {
            n - 1
        } else {
            self.selected
        };
        self.show_subs = show_subs;
        self.selected = selected;
    }

    /// The rows, if they can be shown.
    fn body(
        &self,
        frame: &Frame,
        rows: &Vec<&R>,
        columns: &Vec<Vec<String>>,
        width: usize,
    ) -> (r: Option<String>)
        requires
            frame.counted(),
            columns@.len() == frame.columns@.len(),
            forall|c: int|
                0 <= c < columns@.len() ==> (#[trigger] columns@[c])@.len() >= rows@.len() + 1,
            self.model().show_subs.len() == rows@.len(),
        ensures
            match r {
                Some(t) => rows_upto(
                    frame@,
                    rows@,
                    layout::text_columns(columns@),
                    self.model(),
                    width as nat,
                    rows@.len(),
                ) == Some(t@),
                None => rows_upto(
                    frame@,
                    rows@,
                    layout::text_columns(columns@),
                    self.model(),
                    width as nat,
                    rows@.len(),
                ) is None,
            },
    {
        let ghost f = frame@;
        let ghost all = layout::text_columns(columns@);
        let ghost total = rows@.len();
        let mut out = String::new();
        let mut r: usize = 0;
        while r < rows.len()
            invariant
                r <= rows@.len(),
                total == rows@.len(),
                f == frame@,
                frame.counted(),
                columns@.len() == frame.columns@.len(),
                forall|c: int|
                    0 <= c < columns@.len() ==> (#[trigger] columns@[c])@.len() >= rows@.len() + 1,
                self.model().show_subs.len() == rows@.len(),
                all == layout::text_columns(columns@),
                rows_upto(f, rows@, all, self.model(), width as nat, r as nat) == Some(out@),
            decreases rows@.len() - r,
        {
            let cells = table::copy_cells(columns, r + 1);
            let color = if self.selected == r && frame.focused {
                Color::Green
            } else {
                Color::White
            };
            frame.push_line(&mut out, &cells, color, false);
            if self.show_subs[r] {
                push_separator(frame, &mut out, Junction::SubTop);
                if !push_sub(frame, &mut out, rows[r], width) {
                    proof {
                        lemma_rows_missing(
                            f,
                            rows@,
                            all,
                            self.model(),
                            width as nat,
                            r as nat + 1,
                            total,
                        );
                    }
                    return None;
                }
                let ghost most = out@;
                if r + 1 < rows.len() {
                    push_separator(frame, &mut out, Junction::SubBottom);
                } else {
                    assert(most =~= most + Seq::<char>::empty());
                }
            }
            r += 1;
        }
        Some(out)
    }

    /// Appends what stands below the rows.
    fn push_foot(
        &self,
        frame: &Frame,
        out: &mut String,
        columns: &Vec<Vec<String>>,
        num_rows: usize,
    )
        requires
            frame.counted(),
            columns@.len() == frame.columns@.len(),
            0 < num_rows < usize::MAX,
            self.model().show_subs.len() == num_rows,
            self.model().show_total ==> forall|c: int|
                0 <= c < columns@.len() ==> (#[trigger] columns@[c])@.len() >= num_rows + 2,
        ensures
            final(out)@ == old(out)@ + foot_of(
                frame@,
                layout::text_columns(columns@),
                self.model(),
                num_rows as nat,
            ),
    {
        if self.show_total {
            let junction = if self.show_subs[num_rows - 1] {
                Junction::SubTotal
            } else {
                Junction::Center
            };
            push_separator(frame, out, junction);
            let cells = table::copy_cells(columns, num_rows + 1);
            frame.push_line(out, &cells, Color::Yellow, false);
            push_separator(frame, out, Junction::Bottom);
            assert(out@ =~= old(out)@ + foot_of(
                frame@,
                layout::text_columns(columns@),
                self.model(),
                num_rows as nat,
            ));
        } else {
            push_separator(frame, out, Junction::Bottom);
        }
    }

    /// The table in the colors of a palette, if it can be shown.
    pub fn render_with(&mut self, rows: &Vec<&R>, width: usize, palette: &Palette) -> (r: Option<
        String,
    >)
        requires
            old(self).wf(),
            rows@.len() < usize::MAX,
        ensures
            final(self).wf(),
            final(self).model().wf(),
            match r {
                Some(t) => rendered(rows@, old(self).model(), width as nat, palette@) == Some(t@),
                None => rendered(rows@, old(self).model(), width as nat, palette@) is None,
            },
            final(self).model() == if rows@.len() == 0 {
                old(self).model()
            } else {
                old(self).model().resized(rows@.len())
            },
    {
        if rows.len() == 0 {
            return None;
        }
        self.resize(rows.len());
        let layout = match layout::lay_out(
            &self.columns,
            self.flex_total,
            rows,
            self.padding,
            width,
            self.show_total,
        ) {
            Some(layout) => layout,
            None => {
                return None;
            },
        };
        proof {
            layout::lemma_layout_sizes(rows@, self.padding as nat, width as nat, self.show_total);
            assert forall|c: int| 0 <= c < layout.columns@.len() implies (
            #[trigger] layout.columns@[c])@.len() == layout@.columns[c].len() by {}
        }
        let frame = Frame {
            padding: self.padding,
            focused: self.focused,
            widths: &layout.widths,
            columns: &self.columns,
            palette,
        };
        assert(frame.counted());
        let body = match self.body(&frame, rows, &layout.columns, width) {
            Some(body) => body,
            None => {
                return None;
            },
        };
        let mut out = String::new();
        push_separator(&frame, &mut out, Junction::Top);
        assert(out@ =~= plain_separator(frame@, Junction::Top));
        let header_cells = table::copy_headers::<R>(&self.columns);
        frame.push_line(&mut out, &header_cells, Color::Red, false);
        push_separator(&frame, &mut out, Junction::Center);
        out.append(body.as_str());
        self.push_foot(&frame, &mut out, &layout.columns, rows.len());
        Some(out)
    }

    /// The table in this terminal's colors, if it can be shown. Which colors
    /// those are rests on the environment.
    pub fn render(&mut self, rows: &Vec<&R>, width: usize) -> (r: Option<String>)
        requires
            old(self).wf(),
            rows@.len() < usize::MAX,
        ensures
            final(self).wf(),
            final(self).model().wf(),
            exists|palette: PaletteModel|
                palette.of_terminal() && match r {
                    Some(t) => (#[trigger] rendered(
                        rows@,
                        old(self).model(),
                        width as nat,
                        palette,
                    )) == Some(t@),
                    None => rendered(rows@, old(self).model(), width as nat, palette) is None,
                },
            final(self).model() == if rows@.len() == 0 {
                old(self).model()
            } else {
                old(self).model().resized(rows@.len())
            },
    {
        let palette = Palette::current();
        self.render_with(rows, width, &palette)
    }
}

/// Down goes to the next row and up to the one before; behind the last comes the
/// first. Opening a row opens that one, and closes it again.
pub proof fn law_row_moves(m: TableModel, i: int)
    requires
        m.wf(),
        0 <= i < m.show_subs.len(),
    ensures
        ({
            let n = m.show_subs.len();
            &&& m.down() == (TableModel {
                selected: if m.selected + 1 == n {
                    0
                } else {
                    m.selected + 1
                },
                ..m
            })
            &&& m.up() == (TableModel {
                selected: if m.selected == 0 {
                    (n - 1) as nat
                } else {
                    (m.selected - 1) as nat
                },
                ..m
            })
            &&& m.toggle() == (TableModel { show_subs: m.toggle().show_subs, ..m })
            &&& m.toggle().show_subs.len() == n
            &&& m.toggle().show_subs[i] == if i == m.selected {
                !m.show_subs[i]
            } else {
                m.show_subs[i]
            }
        }),
{
    let n = m.show_subs.len() as int;
    let s = m.selected as int;
    if s == 0 {
        vstd::arithmetic::div_mod::lemma_small_mod((n - 1) as nat, n as nat);
    } else {
        vstd::arithmetic::div_mod::lemma_mod_add_multiples_vanish(s - 1, n);
        vstd::arithmetic::div_mod::lemma_small_mod((s - 1) as nat, n as nat);
    }
    vstd::arithmetic::div_mod::lemma_mod_self_0(n);
    if s + 1 < n {
        vstd::arithmetic::div_mod::lemma_small_mod((s + 1) as nat, n as nat);
    }
}

/// With another number of rows, those that stay are open or closed as before, new
/// ones are closed, and the selected row stays or is the last one.
pub proof fn law_rows_change(m: TableModel, n: nat, i: int)
    requires
        m.wf(),
        0 <= i < n,
    ensures
        ({
            let after = m.resized(n);
            &&& after.wf()
            &&& after.show_subs.len() == n
            &&& after.show_subs[i] == (i < m.show_subs.len() && m.show_subs[i])
            &&& m.selected < n ==> after.selected == m.selected
            &&& m.selected >= n ==> after.selected + 1 == n
            &&& after.padding == m.padding && after.show_total == m.show_total && after.focused
                == m.focused
        }),
{
}

} // verus!
