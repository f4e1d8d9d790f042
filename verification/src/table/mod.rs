//! Tables on the terminal, whose rows can be opened to show what is within them.

pub mod draw;
pub mod laws;
pub mod layout;
pub mod moves;
pub mod state;

use crate::style::{Color, Palette, PaletteModel};
use crate::text;
use crate::assoc;
use std::marker::PhantomData;
use vstd::prelude::*;

use self::draw::{Frame, FrameModel, Junction};
use self::layout::{Cells, Column};
use self::state::{RowHash, RowModel, RowState, Shape, Sort, TableModel, TableState};

verus! {

/// A section of a row that shows text.
#[derive(Debug)]
pub struct TextSubSection {
    pub header: String,
    pub key: char,
}

/// A section of a row that shows a table.
#[derive(Debug)]
pub struct TableSubSection {
    pub header: String,
    pub key: char,
}

/// A section of a row.
#[derive(Debug)]
pub enum SubSection {
    Text(TextSubSection),
    Table(TableSubSection),
}

/// What stands above a section.
#[verifier::ext_equal]
pub struct SectionModel {
    pub header: Seq<char>,
    pub key: char,
    pub is_table: bool,
}

impl View for SubSection {
    type V = SectionModel;

    open spec fn view(&self) -> SectionModel {
        match self {
            SubSection::Text(s) => SectionModel {
                header: s.header@,
                key: s.key,
                is_table: false,
            },
            SubSection::Table(s) => SectionModel {
                header: s.header@,
                key: s.key,
                is_table: true,
            },
        }
    }
}

/// What stands above several sections.
pub open spec fn section_views(s: Seq<SubSection>) -> Seq<SectionModel> {
    s.map_values(|c: SubSection| c@)
}

/// The keys of several sections.
pub open spec fn section_keys(s: Seq<SectionModel>) -> Seq<char> {
    s.map_values(|c: SectionModel| c.key)
}

impl SubSection {
    /// The section's name.
    pub fn header(&self) -> (r: &str)
        ensures
            r@ == self@.header,
    {
        match self {
            SubSection::Text(s) => s.header.as_str(),
            SubSection::Table(s) => s.header.as_str(),
        }
    }

    /// The key that opens and closes the section.
    pub fn key(&self) -> (r: char)
        ensures
            r == self@.key,
    {
        match self {
            SubSection::Text(s) => s.key,
            SubSection::Table(s) => s.key,
        }
    }
}

/// What a table shows. A row is known by its hash and can have sections; those
/// that hold a table have a memory.
pub trait Row: Cells {
    spec fn row_id(&self) -> RowHash;

    spec fn section_models() -> Seq<SectionModel>;

    spec fn shape() -> Shape;

    /// The memories of the sections of a new row.
    spec fn fresh_states() -> Seq<Option<TableModel>>;

    /// What a section shows, if it can be shown, and what it remembers then.
    spec fn section_content(
        &self,
        s: int,
        state: Option<TableModel>,
        width: nat,
        palette: PaletteModel,
    ) -> Option<(Seq<char>, Option<TableModel>)>;

    /// A row's shape has a place for each section, and a new row has that shape.
    proof fn law_shape()
        ensures
            Self::shape().keys == section_keys(Self::section_models()),
            Self::shape().subs.len() == Self::section_models().len(),
            state::subs_fit(Self::fresh_states(), Self::shape().subs),
    ;

    /// A section that is shown again shows the same, and remembers the same.
    proof fn law_content_settles(
        &self,
        s: int,
        state: Option<TableModel>,
        width: nat,
        palette: PaletteModel,
    )
        requires
            0 <= s < Self::section_models().len(),
            state::sub_fits(state, Self::shape().subs[s]),
        ensures
            self.section_content(s, state, width, palette) matches Some((t, after)) ==> {
                &&& state::sub_fits(after, Self::shape().subs[s])
                &&& self.section_content(s, after, width, palette) == Some((t, after))
            },
    ;

    fn id(&self) -> (r: RowHash)
        ensures
            r == self.row_id(),
    ;

    fn sub_sections() -> (r: Vec<SubSection>)
        ensures
            section_views(r@) == Self::section_models(),
    ;

    fn new_states() -> (r: Vec<Option<TableState>>)
        ensures
            state::sub_models(r@) == Self::fresh_states(),
    ;

    fn content(&self, s: usize, state: &mut Option<TableState>, width: usize, palette: &Palette) -> (r:
        Option<String>)
        requires
            s < Self::section_models().len(),
            state::sub_fits(state::sub_model(*old(state)), Self::shape().subs[s as int]),
        ensures
            state::sub_fits(state::sub_model(*final(state)), Self::shape().subs[s as int]),
            match r {
                Some(t) => self.section_content(
                    s as int,
                    state::sub_model(*old(state)),
                    width as nat,
                    palette@,
                ) == Some((t@, state::sub_model(*final(state)))),
                None => self.section_content(
                    s as int,
                    state::sub_model(*old(state)),
                    width as nat,
                    palette@,
                ) is None,
            },
    ;
}

/// What a new row remembers.
pub open spec fn fresh_row<R: Row>() -> RowModel {
    RowModel {
        marked: false,
        show_sub: false,
        show_sections: Seq::new(R::section_models().len(), |i: int| false),
        sub_table_states: R::fresh_states(),
    }
}

/// What a new table remembers.
pub open spec fn fresh_table<R: Row>(is_root: bool) -> TableModel {
    TableModel {
        prev_focused: if is_root {
            None
        } else {
            Some(false)
        },
        focused_section: None,
        selected_row: None,
        row_states: Seq::empty(),
        column_sorts: Seq::new(R::column_models().len(), |i: int| Sort::Unsorted),
        show_total: true,
        sub_keys: section_keys(R::section_models()),
        default_row_state: fresh_row::<R>(),
        ordered_row_hashes: Seq::empty(),
    }
}

/// A new table's memory is in order.
pub proof fn law_fresh_fits<R: Row>(is_root: bool)
    ensures
        state::fits(fresh_table::<R>(is_root), R::shape()),
{
    R::law_shape();
}

impl RowState {
    /// The memory of a new row.
    pub fn new<R: Row>() -> (r: RowState)
        ensures
            r.model() == fresh_row::<R>(),
    {
        let n = R::sub_sections().len();
        let mut show_sections: Vec<bool> = Vec::new();
        let mut i: usize = 0;
        while i < n
            invariant
                i <= n,
                show_sections@ == Seq::new(i as nat, |i: int| false),
            decreases n - i,
        {
            show_sections.push(false);
            i += 1;
            assert(show_sections@ =~= Seq::new(i as nat, |i: int| false));
        }
        RowState { marked: false, show_sub: false, show_sections, sub_table_states: R::new_states() }
    }
}

impl TableState {
    /// The memory of a new table. One that is not at the root has no focus.
    pub fn new<R: Row>(is_root: bool) -> (r: TableState)
        ensures
            r.model() == fresh_table::<R>(is_root),
            state::fits(r.model(), R::shape()),
            state::sound(r.model()),
    {
        let n = R::columns().len();
        let mut column_sorts: Vec<Sort> = Vec::new();
        let mut i: usize = 0;
        while i < n
            invariant
                i <= n,
                column_sorts@ == Seq::new(i as nat, |i: int| Sort::Unsorted),
            decreases n - i,
        {
            column_sorts.push(Sort::default());
            i += 1;
            assert(column_sorts@ =~= Seq::new(i as nat, |i: int| Sort::Unsorted));
        }
        let sections = R::sub_sections();
        let mut sub_keys: Vec<char> = Vec::new();
        let ghost keys = section_keys(section_views(sections@));
        let mut s: usize = 0;
        while s < sections.len()
            invariant
                s <= sections@.len(),
                keys == section_keys(section_views(sections@)),
                sub_keys@ == keys.take(s as int),
            decreases sections@.len() - s,
        {
            assert(keys.take(s as int + 1) =~= keys.take(s as int).push(keys[s as int]));
            sub_keys.push(sections[s].key());
            s += 1;
        }
        assert(keys.take(s as int) =~= keys);
        let r = TableState {
            show_total: true,
            prev_focused: if is_root {
                None
            } else {
                Some(false)
            },
            focused_section: None,
            selected_row: None,
            row_states: Vec::new(),
            column_sorts,
            default_row_state: RowState::new::<R>(),
            ordered_row_hashes: Vec::new(),
            sub_keys,
        };
        proof {
            law_fresh_fits::<R>(is_root);
            assert(r.ordered_row_hashes@ =~= Seq::empty());
            assert(r.model().row_states =~= Seq::empty());
            assert(r.model() == fresh_table::<R>(is_root));
        }
        r
    }
}

/// What rows are known by.
pub open spec fn ids_of<R: Row>(rows: Seq<&R>) -> Seq<RowHash> {
    rows.map_values(|r: &R| r.row_id())
}

/// The names of the first `n` sections, those that are open in green.
pub open spec fn section_names(
    f: FrameModel,
    sections: Seq<SectionModel>,
    open: Seq<bool>,
    n: nat,
) -> Seq<char>
    decreases n,
{
    if n == 0 {
        Seq::empty()
    } else {
        let s = sections[n - 1];
        section_names(f, sections, open, (n - 1) as nat) + f.colored(
            if open[n - 1] {
                Color::Green
            } else {
                Color::White
            },
            seq!['[', s.key, ']', ' '] + s.header + seq![' '],
        )
    }
}

/// The names of the sections, as they stand in the line above them.
pub open spec fn section_bar(f: FrameModel, sections: Seq<SectionModel>, open: Seq<bool>) -> Seq<
    char,
> {
    f.bordered(seq!['┤']) + seq![' '] + section_names(f, sections, open, sections.len())
        + f.bordered(seq!['├'])
}

/// What the first `n` sections of a row show, if they can be shown, and what the
/// row remembers then.
pub open spec fn sections_upto<R: Row>(
    f: FrameModel,
    row: &R,
    m: RowModel,
    width: nat,
    n: nat,
) -> Option<(Seq<char>, RowModel)>
    decreases n,
{
    if n == 0 {
        Some((Seq::empty(), m))
    } else {
        match sections_upto(f, row, m, width, (n - 1) as nat) {
            None => None,
            Some((before, m)) => if !m.show_sections[n - 1] {
                Some((before, m))
            } else if width < 2 * (f.padding + 1) {
                None
            } else {
                match row.section_content(
                    n - 1,
                    m.sub_table_states[n - 1],
                    (width - 2 * (f.padding + 1)) as nat,
                    f.palette,
                ) {
                    None => None,
                    Some((content, sub)) => match f.section_lines(
                        text::lines_of(content),
                        m.marked,
                        width,
                    ) {
                        None => None,
                        Some(lines) => Some(
                            (
                                before + lines,
                                RowModel {
                                    sub_table_states: m.sub_table_states.update(n - 1, sub),
                                    ..m
                                },
                            ),
                        ),
                    },
                }
            },
        }
    }
}

/// Line `r` of the columns.
pub open spec fn cells_at(columns: Seq<Seq<Seq<char>>>, r: int) -> Seq<Seq<char>> {
    columns.map_values(|c: Seq<Seq<char>>| c[r])
}

/// The color of a row.
pub open spec fn row_color(f: FrameModel, m: TableModel, h: RowHash) -> Color {
    if m.selected_row == Some(h) && f.focused {
        Color::Green
    } else {
        Color::White
    }
}

/// What the first `n` rows show, if they can be shown, and what the table
/// remembers then.
pub open spec fn rows_upto<R: Row>(
    f: FrameModel,
    rows: Seq<&R>,
    columns: Seq<Seq<Seq<char>>>,
    m: TableModel,
    width: nat,
    n: nat,
) -> Option<(Seq<char>, TableModel)>
    decreases n,
{
    if n == 0 {
        Some((Seq::empty(), m))
    } else {
        match rows_upto(f, rows, columns, m, width, (n - 1) as nat) {
            None => None,
            Some((before, m)) => {
                let h = rows[n - 1].row_id();
                let row = m.row(h);
                let line = f.line(cells_at(columns, n as int), row_color(f, m, h), row.marked);
                if !row.show_sub {
                    Some((before + line, m))
                } else {
                    match sections_upto(f, rows[n - 1], row, width, R::section_models().len()) {
                        None => None,
                        Some((sections, row)) => Some(
                            (
                                before + line + f.h_separator(
                                    Junction::SubTop,
                                    section_bar(f, R::section_models(), row.show_sections),
                                ) + sections + if n < rows.len() {
                                    f.h_separator(Junction::SubBottom, Seq::empty())
                                } else {
                                    Seq::empty()
                                },
                                m.with_row(h, row),
                            ),
                        ),
                    }
                }
            },
        }
    }
}

/// What stands below the rows.
pub open spec fn foot_of<R: Row>(
    f: FrameModel,
    rows: Seq<&R>,
    columns: Seq<Seq<Seq<char>>>,
    m: TableModel,
    show_total: bool,
) -> Seq<char> {
    let opened = rows.len() > 0 && m.row(rows.last().row_id()).show_sub;
    if show_total {
        f.h_separator(
            if opened {
                Junction::SubTotal
            } else {
                Junction::Center
            },
            Seq::empty(),
        ) + f.line(cells_at(columns, rows.len() as int + 1), Color::Yellow, false)
            + f.h_separator(Junction::Bottom, Seq::empty())
    } else {
        f.h_separator(
            if opened {
                Junction::SubLast
            } else {
                Junction::Bottom
            },
            Seq::empty(),
        )
    }
}

/// Some column has a total.
pub open spec fn some_total<R: Row>() -> bool {
    exists|c: int| 0 <= c < R::column_models().len() && (#[trigger] R::column_models()[c]).has_total
}

/// The names of the columns.
pub open spec fn headers<R: Cells>() -> Seq<Seq<char>> {
    R::column_models().map_values(|c: layout::ColumnModel| c.header)
}

/// A table, if it can be shown, and what it remembers then.
pub open spec fn rendered<R: Row>(
    rows: Seq<&R>,
    padding: nat,
    m: TableModel,
    width: nat,
    palette: PaletteModel,
) -> Option<(Seq<char>, TableModel)> {
    let show_total = m.show_total && some_total::<R>();
    match layout::layout_of(rows, padding, width, show_total) {
        None => None,
        Some(l) => {
            let f = FrameModel {
                padding,
                focused: m.prev_focused != Some(false) && m.focused_section is None,
                widths: l.widths,
                columns: R::column_models(),
                palette,
            };
            match rows_upto(f, rows, l.columns, m.reconcile(ids_of(rows)), width, rows.len()) {
                None => None,
                Some((body, m)) => Some(
                    (
                        head_of::<R>(f) + body + foot_of(f, rows, l.columns, m, show_total),
                        m,
                    ),
                ),
            }
        },
    }
}

/// A table.
#[derive(Debug)]
pub struct Table<R: Row> {
    columns: Vec<Column>,
    padding: usize,
    flex_total: usize,
    rows: PhantomData<R>,
}

/// Line `r` of the columns.
pub fn copy_cells(columns: &Vec<Vec<String>>, r: usize) -> (cells: Vec<String>)
    requires
        forall|c: int| 0 <= c < columns@.len() ==> r < (#[trigger] columns@[c])@.len(),
    ensures
        text::texts(cells@) == cells_at(layout::text_columns(columns@), r as int),
        cells@.len() == columns@.len(),
{
    let ghost all = layout::text_columns(columns@);
    let mut cells: Vec<String> = Vec::new();
    let mut c: usize = 0;
    while c < columns.len()
        invariant
            c <= columns@.len(),
            all == layout::text_columns(columns@),
            forall|c: int| 0 <= c < columns@.len() ==> r < (#[trigger] columns@[c])@.len(),
            cells@.len() == c,
            forall|j: int| 0 <= j < c ==> (#[trigger] cells@[j])@ == all[j][r as int],
        decreases columns@.len() - c,
    {
        assert(r < columns@[c as int]@.len());
        assert(all[c as int][r as int] == columns@[c as int]@[r as int]@);
        cells.push(columns[c][r].clone());
        c += 1;
    }
    assert(text::texts(cells@) =~= cells_at(all, r as int));
    cells
}

/// The names of the sections, as they stand in the line above them.
fn section_line(frame: &Frame, sections: &Vec<SubSection>, open: &Vec<bool>) -> (r: String)
    requires
        open@.len() == sections@.len(),
    ensures
        r@ == section_bar(frame@, section_views(sections@), open@),
{
    let ghost f = frame@;
    let ghost all = section_views(sections@);
    let mut r = String::new();
    let mut left = String::new();
    left.push('┤');
    assert(left@ =~= seq!['┤']);
    frame.push_colored(&mut r, frame.border(), left.as_str());
    r.push(' ');
    let ghost start = r@;
    assert(start =~= f.bordered(seq!['┤']) + seq![' ']);
    let mut s: usize = 0;
    assert(r@ =~= start + section_names(f, all, open@, 0));
    while s < sections.len()
        invariant
            s <= sections@.len(),
            open@.len() == sections@.len(),
            f == frame@,
            all == section_views(sections@),
            r@ == start + section_names(f, all, open@, s as nat),
        decreases sections@.len() - s,
    {
        let ghost before = r@;
        let mut name = String::new();
        name.push('[');
        name.push(sections[s].key());
        name.push(']');
        name.push(' ');
        name.append(sections[s].header());
        name.push(' ');
        let ghost m = all[s as int];
        assert(name@ =~= seq!['[', m.key, ']', ' '] + m.header + seq![' ']);
        let color = if open[s] {
            Color::Green
        } else {
            Color::White
        };
        frame.push_colored(&mut r, color, name.as_str());
        proof {
            draw::lemma_append(
                start,
                section_names(f, all, open@, s as nat),
                f.colored(color, name@),
            );
        }
        s += 1;
    }
    let mut right = String::new();
    right.push('├');
    assert(right@ =~= seq!['├']);
    frame.push_colored(&mut r, frame.border(), right.as_str());
    r
}

proof fn lemma_sections_missing<R: Row>(
    f: FrameModel,
    row: &R,
    m: RowModel,
    width: nat,
    n: nat,
    total: nat,
)
    requires
        n <= total,
        sections_upto(f, row, m, width, n) is None,
    ensures
        sections_upto(f, row, m, width, total) is None,
    decreases total - n,
{
    if n < total {
        lemma_sections_missing(f, row, m, width, n, (total - 1) as nat);
    }
}

proof fn lemma_rows_missing<R: Row>(
    f: FrameModel,
    rows: Seq<&R>,
    columns: Seq<Seq<Seq<char>>>,
    m: TableModel,
    width: nat,
    n: nat,
    total: nat,
)
    requires
        n <= total,
        rows_upto(f, rows, columns, m, width, n) is None,
    ensures
        rows_upto(f, rows, columns, m, width, total) is None,
    decreases total - n,
{
    if n < total {
        lemma_rows_missing(f, rows, columns, m, width, n, (total - 1) as nat);
    }
}

/// What the open sections of a row show, if they can be shown.
fn sections<R: Row>(frame: &Frame, row: &R, state: &mut RowState, width: usize) -> (r: Option<
    String,
>)
    requires
        state::row_fits(old(state).model(), R::shape()),
    ensures
        state::row_fits(final(state).model(), R::shape()),
        match r {
            Some(t) => sections_upto(
                frame@,
                row,
                old(state).model(),
                width as nat,
                R::section_models().len(),
            ) == Some((t@, final(state).model())),
            None => sections_upto(
                frame@,
                row,
                old(state).model(),
                width as nat,
                R::section_models().len(),
            ) is None,
        },
{
    let ghost f = frame@;
    let ghost before = state.model();
    let ghost shape = R::shape();
    let ghost count = R::section_models().len();
    proof {
        R::law_shape();
        state::lemma_sub_models(state.sub_table_states@);
        state::lemma_subs_fit(before.sub_table_states, shape.subs);
    }
    let mut out = String::new();
    let mut i: usize = 0;
    while i < state.show_sections.len()
        invariant
            i <= state.show_sections@.len(),
            f == frame@,
            before == old(state).model(),
            shape == R::shape(),
            count == R::section_models().len(),
            shape.subs.len() == count,
            state.show_sections@.len() == count,
            state.sub_table_states@.len() == count,
            state::row_fits(state.model(), shape),
            state.marked == before.marked,
            sections_upto(f, row, before, width as nat, i as nat) == Some((out@, state.model())),
        decreases state.show_sections@.len() - i,
    {
        let ghost m = state.model();
        proof {
            state::lemma_sub_models(state.sub_table_states@);
            state::lemma_subs_fit(m.sub_table_states, shape.subs);
            assert(m.sub_table_states[i as int] == state::sub_model(
                state.sub_table_states@[i as int],
            ));
            assert(state::sub_fits(m.sub_table_states[i as int], shape.subs[i as int]));
        }
        if state.show_sections[i] {
            let margin = 2 * (frame.padding as u128 + 1);
            if (width as u128) < margin {
                proof {
                    lemma_sections_missing(f, row, before, width as nat, i as nat + 1, count);
                }
                return None;
            }
            let inner = width - margin as usize;
            let ghost subs = state.sub_table_states@;
            let content = row.content(
                i,
                &mut state.sub_table_states[i],
                inner,
                frame.palette,
            );
            let ghost sub = state::sub_model(state.sub_table_states@[i as int]);
            proof {
                state::lemma_sub_updated(subs, i as int, state.sub_table_states@[i as int]);
                assert(state.sub_table_states@ =~= subs.update(
                    i as int,
                    state.sub_table_states@[i as int],
                ));
                state::lemma_sub_update_fits(m, i as int, sub, shape);
            }
            let done = match content {
                Some(content) => {
                    let ghost so_far = out@;
                    let done = frame.push_section(&mut out, content.as_str(), state.marked, width);
                    done
                },
                None => false,
            };
            if !done {
                proof {
                    lemma_sections_missing(f, row, before, width as nat, i as nat + 1, count);
                }
                return None;
            }
        }
        i += 1;
    }
    Some(out)
}

/// A row's memory changed within a table's.
proof fn lemma_row_changed(
    t: TableState,
    u: TableState,
    i: int,
    h: RowHash,
    row: RowState,
    shape: Shape,
)
    requires
        state::fits(t.model(), shape),
        0 <= i < t.row_states@.len(),
        t.row_states@[i].0 == h,
        assoc::has_key(t.model().row_states, h),
        assoc::index_of(t.model().row_states, h) == i,
        state::row_fits(row.model(), shape),
        u.row_states@ == t.row_states@.update(i, (h, row)),
        u == (TableState { row_states: u.row_states, ..t }),
    ensures
        u.model() == t.model().with_row(h, row.model()),
        state::fits(u.model(), shape),
        forall|g: RowHash|
            assoc::has_key(t.model().row_states, g) ==> #[trigger] assoc::has_key(
                u.model().row_states,
                g,
            ),
{
    state::lemma_row_updated(t.row_states@, i, (h, row));
    state::lemma_with_row_fits(t.model(), h, row.model(), shape);
    assert forall|g: RowHash|
        assoc::has_key(t.model().row_states, g) implies #[trigger] assoc::has_key(
        u.model().row_states,
        g,
    ) by {
        let j = assoc::index_of(t.model().row_states, g);
        assert(assoc::key_at(t.model().row_states, j, g));
        assert(u.model().row_states[j].0 == t.model().row_states[j].0);
        assert(assoc::key_at(u.model().row_states, j, g));
    }
}

/// What the rows show, if they can be shown.
fn body<R: Row>(
    frame: &Frame,
    rows: &Vec<&R>,
    ids: &Vec<RowHash>,
    columns: &Vec<Vec<String>>,
    state: &mut TableState,
    width: usize,
) -> (r: Option<String>)
    requires
        frame.counted(),
        layout::column_views(frame.columns@) == R::column_models(),
        columns@.len() == frame.columns@.len(),
        forall|c: int| 0 <= c < columns@.len() ==> (#[trigger] columns@[c])@.len() >= rows@.len() + 1,
        ids@ == ids_of(rows@),
        state::fits(old(state).model(), R::shape()),
        forall|j: int|
            0 <= j < ids@.len() ==> assoc::has_key(
                old(state).model().row_states,
                #[trigger] ids@[j],
            ),
    ensures
        state::fits(final(state).model(), R::shape()),
        match r {
            Some(t) => rows_upto(
                frame@,
                rows@,
                layout::text_columns(columns@),
                old(state).model(),
                width as nat,
                rows@.len(),
            ) == Some((t@, final(state).model())) && forall|j: int|
                0 <= j < ids@.len() ==> assoc::has_key(
                    final(state).model().row_states,
                    #[trigger] ids@[j],
                ),
            None => rows_upto(
                frame@,
                rows@,
                layout::text_columns(columns@),
                old(state).model(),
                width as nat,
                rows@.len(),
            ) is None,
        },
{
    let ghost f = frame@;
    let ghost before = state.model();
    let ghost shape = R::shape();
    let ghost all = layout::text_columns(columns@);
    let ghost total = rows@.len();
    proof {
        R::law_shape();
    }
    let sub_sections = R::sub_sections();
    let mut out = String::new();
    let mut r: usize = 0;
    while r < rows.len()
        invariant
            r <= rows@.len(),
            total == rows@.len(),
            f == frame@,
            frame.counted(),
            columns@.len() == frame.columns@.len(),
            forall|c: int|
                0 <= c < columns@.len() ==> (#[trigger] columns@[c])@.len() >= rows@.len() + 1,
            ids@ == ids_of(rows@),
            before == old(state).model(),
            shape == R::shape(),
            shape.keys.len() == sub_sections@.len(),
            section_views(sub_sections@) == R::section_models(),
            all == layout::text_columns(columns@),
            state::fits(state.model(), shape),
            forall|j: int|
                0 <= j < ids@.len() ==> assoc::has_key(
                    state.model().row_states,
                    #[trigger] ids@[j],
                ),
            rows_upto(f, rows@, all, before, width as nat, r as nat) == Some((out@, state.model())),
        decreases rows@.len() - r,
    {
        let ghost m = state.model();
        let h = ids[r];
        assert(h == rows@[r as int].row_id());
        assert(state::sound(state.model())) by {
            assert(state::fits(state.model(), shape));
        }
        let i = match state.find_row(h) {
            Some(i) => i,
            None => {
                assert(assoc::has_key(m.row_states, ids@[r as int]));
                return None;
            },
        };
        let selected = match state.selected_row {
            Some(s) => s == h,
            None => false,
        };
        let color = if selected && frame.focused {
            Color::Green
        } else {
            Color::White
        };
        let marked = state.row_states[i].1.marked;
        let cells = copy_cells(columns, r + 1);
        let ghost so_far = out@;
        frame.push_line(&mut out, &cells, color, marked);
        if state.row_states[i].1.show_sub {
            proof {
                state::lemma_row_of_fits(m, h, shape);
            }
            let ghost t = *state;
            let ghost row = state.row_states@[i as int].1;
            let text = sections(frame, rows[r], &mut state.row_states[i].1, width);
            let ghost after = state.row_states@[i as int].1;
            proof {
                assert(state.row_states@ =~= t.row_states@.update(i as int, (h, after)));
                lemma_row_changed(t, *state, i as int, h, after, shape);
            }
            let text = match text {
                Some(text) => text,
                None => {
                    proof {
                        lemma_rows_missing(
                            f,
                            rows@,
                            all,
                            before,
                            width as nat,
                            r as nat + 1,
                            total,
                        );
                    }
                    return None;
                },
            };
            proof {
                lemma_open_sections(
                    f,
                    rows@[r as int],
                    row.model(),
                    width as nat,
                    R::section_models().len(),
                );
            }
            let bar = section_line(frame, &sub_sections, &state.row_states[i].1.show_sections);
            frame.push_h_separator(&mut out, Junction::SubTop, bar.as_str());
            out.append(text.as_str());
            let ghost most = out@;
            if r + 1 < rows.len() {
                let none = String::new();
                assert(none@ =~= Seq::empty());
                frame.push_h_separator(&mut out, Junction::SubBottom, none.as_str());
            } else {
                assert(most =~= most + Seq::<char>::empty());
            }
        }
        r += 1;
    }
    Some(out)
}

/// Showing a row's sections does not open or close any.
proof fn lemma_open_sections<R: Row>(f: FrameModel, row: &R, m: RowModel, width: nat, n: nat)
    ensures
        sections_upto(f, row, m, width, n) matches Some((_, after)) ==> after.show_sections
            == m.show_sections && after.show_sub == m.show_sub && after.marked == m.marked,
    decreases n,
{
    if n > 0 {
        lemma_open_sections(f, row, m, width, (n - 1) as nat);
    }
}

/// The flexes of all columns together.
pub fn sum_flex(columns: &Vec<Column>) -> (r: usize)
    requires
        layout::flex_sum(layout::column_views(columns@), columns@.len()) <= usize::MAX,
    ensures
        r == layout::flex_sum(layout::column_views(columns@), columns@.len()),
{
    let ghost cols = layout::column_views(columns@);
    let mut r: usize = 0;
    let mut c: usize = 0;
    while c < columns.len()
        invariant
            c <= columns@.len(),
            cols == layout::column_views(columns@),
            layout::flex_sum(cols, columns@.len()) <= usize::MAX,
            r == layout::flex_sum(cols, c as nat),
        decreases columns@.len() - c,
    {
        proof {
            layout::lemma_flex_grows(cols, c as nat + 1, columns@.len());
            assert(cols[c as int] == columns@[c as int]@);
        }
        if let Some(f) = columns[c].flex {
            r += f;
        }
        c += 1;
    }
    r
}

/// Whether some column has a total.
fn has_some_total<R: Row>(columns: &Vec<Column>) -> (r: bool)
    requires
        layout::column_views(columns@) == R::column_models(),
    ensures
        r == some_total::<R>(),
{
    let mut c: usize = 0;
    while c < columns.len()
        invariant
            c <= columns@.len(),
            layout::column_views(columns@) == R::column_models(),
            forall|j: int| 0 <= j < c ==> !(#[trigger] R::column_models()[j]).has_total,
        decreases columns@.len() - c,
    {
        assert(R::column_models()[c as int] == columns@[c as int]@);
        if columns[c].has_total {
            return true;
        }
        c += 1;
    }
    false
}

/// The names of the columns.
pub fn copy_headers<R: Cells>(columns: &Vec<Column>) -> (r: Vec<String>)
    requires
        layout::column_views(columns@) == R::column_models(),
    ensures
        r@.len() == columns@.len(),
        text::texts(r@) == headers::<R>(),
{
    let mut r: Vec<String> = Vec::new();
    let mut c: usize = 0;
    while c < columns.len()
        invariant
            c <= columns@.len(),
            r@.len() == c,
            forall|j: int| 0 <= j < c ==> (#[trigger] r@[j])@ == columns@[j].header@,
        decreases columns@.len() - c,
    {
        r.push(columns[c].header.clone());
        c += 1;
    }
    proof {
        assert forall|j: int| 0 <= j < r@.len() implies #[trigger] text::texts(r@)[j]
            == headers::<R>()[j] by {
            assert(R::column_models()[j] == columns@[j]@);
        }
        assert(layout::column_views(columns@).len() == columns@.len());
        assert(text::texts(r@) =~= headers::<R>());
    }
    r
}

/// What rows are known by.
fn copy_ids<R: Row>(rows: &Vec<&R>) -> (r: Vec<RowHash>)
    ensures
        r@ == ids_of(rows@),
{
    let mut r: Vec<RowHash> = Vec::new();
    let mut i: usize = 0;
    while i < rows.len()
        invariant
            i <= rows@.len(),
            r@ == ids_of(rows@).take(i as int),
        decreases rows@.len() - i,
    {
        let ghost ids = ids_of(rows@);
        assert(ids.take(i as int + 1) =~= ids.take(i as int).push(ids[i as int]));
        r.push(rows[i].id());
        i += 1;
    }
    assert(r@ =~= ids_of(rows@));
    r
}

/// What stands above the rows.
pub open spec fn head_of<R: Row>(f: FrameModel) -> Seq<char> {
    f.h_separator(Junction::Top, Seq::empty()) + f.line(headers::<R>(), Color::Red, false)
        + f.h_separator(Junction::Center, Seq::empty())
}

/// What stands above the rows.
fn head<R: Row>(frame: &Frame) -> (r: String)
    requires
        frame.counted(),
        layout::column_views(frame.columns@) == R::column_models(),
    ensures
        r@ == head_of::<R>(frame@),
{
    let none = String::new();
    assert(none@ =~= Seq::empty());
    let mut out = String::new();
    frame.push_h_separator(&mut out, Junction::Top, none.as_str());
    assert(out@ =~= frame@.h_separator(Junction::Top, Seq::empty()));
    let header_cells = copy_headers::<R>(frame.columns);
    frame.push_line(&mut out, &header_cells, Color::Red, false);
    frame.push_h_separator(&mut out, Junction::Center, none.as_str());
    out
}

/// What stands below the rows.
fn foot<R: Row>(
    frame: &Frame,
    rows: &Vec<&R>,
    ids: &Vec<RowHash>,
    columns: &Vec<Vec<String>>,
    state: &TableState,
    show_total: bool,
) -> (r: String)
    requires
        frame.counted(),
        columns@.len() == frame.columns@.len(),
        show_total ==> columns@.len() > 0,
        show_total ==> forall|c: int|
            0 <= c < columns@.len() ==> (#[trigger] columns@[c])@.len() >= rows@.len() + 2,
        ids@ == ids_of(rows@),
        state::sound(state.model()),
        forall|j: int|
            0 <= j < ids@.len() ==> assoc::has_key(state.model().row_states, #[trigger] ids@[j]),
    ensures
        r@ == foot_of(
            frame@,
            rows@,
            layout::text_columns(columns@),
            state.model(),
            show_total,
        ),
{
    let none = String::new();
    assert(none@ =~= Seq::empty());
    let mut bottom_sub = false;
    if rows.len() > 0 {
        let last = ids[rows.len() - 1];
        assert(last == rows@.last().row_id());
        assert(assoc::has_key(state.model().row_states, ids@[rows@.len() - 1]));
        if let Some(i) = state.find_row(last) {
            bottom_sub = state.row_states[i].1.show_sub;
        }
    }
    let mut out = String::new();
    if show_total {
        let junction = if bottom_sub {
            Junction::SubTotal
        } else {
            Junction::Center
        };
        frame.push_h_separator(&mut out, junction, none.as_str());
        assert(out@ =~= frame@.h_separator(junction, Seq::empty()));
        let num_lines = columns[0].len();
        assert(columns@[0]@.len() == num_lines);
        let cells = copy_cells(columns, rows.len() + 1);
        frame.push_line(&mut out, &cells, Color::Yellow, false);
        frame.push_h_separator(&mut out, Junction::Bottom, none.as_str());
    } else {
        let junction = if bottom_sub {
            Junction::SubLast
        } else {
            Junction::Bottom
        };
        frame.push_h_separator(&mut out, junction, none.as_str());
        assert(out@ =~= frame@.h_separator(junction, Seq::empty()));
    }
    out
}

impl<R: Row> Table<R> {
    /// How much padding the cells have.
    pub closed spec fn padding(&self) -> nat {
        self.padding as nat
    }

    /// The table has the columns of its rows.
    #[verifier::type_invariant]
    closed spec fn inv(&self) -> bool {
        &&& layout::column_views(self.columns@) == R::column_models()
        &&& self.flex_total == layout::flex_sum(
            layout::column_views(self.columns@),
            self.columns@.len(),
        )
    }

    /// A table of such rows.
    pub fn new(padding: usize) -> (r: Table<R>)
        requires
            layout::flex_sum(R::column_models(), R::column_models().len()) <= usize::MAX,
        ensures
            r.padding() == padding,
    {
        let columns = R::columns();
        assert(layout::column_views(columns@).len() == columns@.len());
        let flex_total = sum_flex(&columns);
        Table { columns, padding, flex_total, rows: PhantomData }
    }

    /// Whether the table shows a line of totals.
    fn show_total(&self, state: &TableState) -> (r: bool)
        ensures
            r == (state.show_total && some_total::<R>()),
    {
        proof {
            use_type_invariant(self);
        }
        state.show_total && has_some_total::<R>(&self.columns)
    }

    /// The table in the colors of a palette, if it can be shown. The memory is
    /// reconciled with the rows first.
    pub fn render_with(
        &self,
        rows: &Vec<&R>,
        state: &mut TableState,
        width: usize,
        palette: &Palette,
    ) -> (r: Option<String>)
        requires
            state::fits(old(state).model(), R::shape()),
        ensures
            state::fits(final(state).model(), R::shape()),
            match r {
                Some(t) => rendered(
                    rows@,
                    self.padding(),
                    old(state).model(),
                    width as nat,
                    palette@,
                ) == Some((t@, final(state).model())),
                None => rendered(
                    rows@,
                    self.padding(),
                    old(state).model(),
                    width as nat,
                    palette@,
                ) is None,
            },
    {
        proof {
            use_type_invariant(self);
        }
        let ghost before = state.model();
        let ghost shape = R::shape();
        assert(state::sound(before)) by {
            assert(state::fits(before, shape));
        }
        let focused = match state.prev_focused {
            Some(focused) => focused,
            None => true,
        } && state.focused_section.is_none();
        let ids = copy_ids(rows);
        let total = self.show_total(state);
        state.reconcile(copy_ids(rows));
        proof {
            state::law_reconcile_fits(before, ids@, shape);
        }
        let layout = match layout::lay_out(
            &self.columns,
            self.flex_total,
            rows,
            self.padding,
            width,
            total,
        ) {
            Some(layout) => layout,
            None => {
                return None;
            },
        };
        proof {
            layout::lemma_layout_sizes(rows@, self.padding as nat, width as nat, total);
            assert forall|c: int| 0 <= c < layout.columns@.len() implies (
            #[trigger] layout.columns@[c])@.len() == layout@.columns[c].len() by {}
        }
        let frame = Frame {
            padding: self.padding,
            focused,
            widths: &layout.widths,
            columns: &self.columns,
            palette,
        };
        proof {
            assert(frame.counted());
            assert(state.model().ordered_row_hashes == ids@);
            assert forall|j: int| 0 <= j < ids@.len() implies assoc::has_key(
                state.model().row_states,
                #[trigger] ids@[j],
            ) by {
                assert(assoc::has_key(
                    state.model().row_states,
                    state.model().ordered_row_hashes[j],
                ));
            }
        }
        let text = match body(&frame, rows, &ids, &layout.columns, state, width) {
            Some(text) => text,
            None => {
                return None;
            },
        };
        assert(state::sound(state.model())) by {
            assert(state::fits(state.model(), shape));
        }
        let mut out = head::<R>(&frame);
        out.append(text.as_str());
        let foot = foot(&frame, rows, &ids, &layout.columns, state, total);
        out.append(foot.as_str());
        Some(out)
    }

    /// The table in this terminal's colors, if it can be shown. Which colors
    /// those are rests on the environment.
    pub fn render(&self, rows: &Vec<&R>, state: &mut TableState, width: usize) -> (r: Option<
        String,
    >)
        requires
            state::fits(old(state).model(), R::shape()),
        ensures
            state::fits(final(state).model(), R::shape()),
            exists|palette: PaletteModel|
                palette.of_terminal() && match r {
                    Some(t) => (#[trigger] rendered(
                        rows@,
                        self.padding(),
                        old(state).model(),
                        width as nat,
                        palette,
                    )) == Some((t@, final(state).model())),
                    None => rendered(
                        rows@,
                        self.padding(),
                        old(state).model(),
                        width as nat,
                        palette,
                    ) is None,
                },
    {
        let palette = Palette::current();
        self.render_with(rows, state, width, &palette)
    }
}

} // verus!
