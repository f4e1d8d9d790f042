//! How wide the columns of a table are, and what stands in their cells.

use crate::text;
use vstd::prelude::*;

verus! {

/// Where a cell's text stands in its column.
#[derive(Clone, Copy, Debug, PartialEq, Eq, Structural)]
pub enum Alignment {
    Left,
    Right,
}

/// A column. One without a flex is as wide as its widest cell, up to its largest
/// width; those with a flex share the rest of the width in proportion.
#[derive(Debug)]
pub struct Column {
    pub header: String,
    pub alignment: Alignment,
    pub max_width: Option<usize>,
    pub flex: Option<usize>,
    pub has_total: bool,
}

/// A column's contents.
#[verifier::ext_equal]
pub struct ColumnModel {
    pub header: Seq<char>,
    pub alignment: Alignment,
    pub max_width: Option<usize>,
    pub flex: Option<usize>,
    pub has_total: bool,
}

impl View for Column {
    type V = ColumnModel;

    open spec fn view(&self) -> ColumnModel {
        ColumnModel {
            header: self.header@,
            alignment: self.alignment,
            max_width: self.max_width,
            flex: self.flex,
            has_total: self.has_total,
        }
    }
}

/// The contents of several columns.
pub open spec fn column_views(s: Seq<Column>) -> Seq<ColumnModel> {
    s.map_values(|c: Column| c@)
}

/// A column without a header, aligned to the left, as wide as its widest cell.
pub open spec fn plain_column() -> ColumnModel {
    ColumnModel {
        header: Seq::empty(),
        alignment: Alignment::Left,
        max_width: None,
        flex: None,
        has_total: false,
    }
}

impl Default for Column {
    fn default() -> (r: Column)
        ensures
            r@ == plain_column(),
    {
        let r = Column {
            header: String::new(),
            alignment: Alignment::Left,
            max_width: None,
            flex: None,
            has_total: false,
        };
        assert(r@ =~= plain_column());
        r
    }
}

/// What a table's rows have in their cells. A cell that cannot be computed is
/// missing.
pub trait Cells: Sized {
    spec fn column_models() -> Seq<ColumnModel>;

    /// The text of a row's cell; columns with a flex are told their width.
    spec fn cell(&self, c: int, width: Option<usize>) -> Option<Seq<char>>;

    /// The text below a column that has a total.
    spec fn total_cell(rows: Seq<&Self>, c: int) -> Option<Seq<char>>;

    fn columns() -> (r: Vec<Column>)
        ensures
            column_views(r@) == Self::column_models(),
    ;

    fn value(&self, c: usize, width: Option<usize>) -> (r: Option<String>)
        requires
            c < Self::column_models().len(),
        ensures
            match r {
                Some(t) => self.cell(c as int, width) == Some(t@),
                None => self.cell(c as int, width) is None,
            },
    ;

    fn total(rows: &Vec<&Self>, c: usize) -> (r: Option<String>)
        requires
            c < Self::column_models().len(),
        ensures
            match r {
                Some(t) => Self::total_cell(rows@, c as int) == Some(t@),
                None => Self::total_cell(rows@, c as int) is None,
            },
    ;
}

/// The cells of column `c`, cut down to `limit` characters.
pub open spec fn cells_of<R: Cells>(
    rows: Seq<&R>,
    c: int,
    width: Option<usize>,
    limit: usize,
) -> Option<Seq<Seq<char>>>
    decreases rows.len(),
{
    if rows.len() == 0 {
        Some(Seq::empty())
    } else {
        match cells_of(rows.drop_last(), c, width, limit) {
            None => None,
            Some(before) => match rows.last().cell(c, width) {
                None => None,
                Some(t) => match text::chopped(t, limit as nat) {
                    None => None,
                    Some(t) => Some(before.push(t)),
                },
            },
        }
    }
}

/// The cells of column `c` before the width is shared: those of a column with
/// a flex are still empty.
pub open spec fn first_cells<R: Cells>(rows: Seq<&R>, c: int) -> Option<Seq<Seq<char>>> {
    let col = R::column_models()[c];
    if col.flex is Some {
        Some(Seq::new(rows.len(), |i: int| Seq::empty()))
    } else {
        cells_of(
            rows,
            c,
            None,
            match col.max_width {
                Some(w) => w,
                None => usize::MAX,
            },
        )
    }
}

/// What stands below column `c`.
pub open spec fn foot<R: Cells>(rows: Seq<&R>, c: int, show_total: bool) -> Option<
    Seq<Seq<char>>,
> {
    if !show_total {
        Some(Seq::empty())
    } else if R::column_models()[c].has_total {
        match R::total_cell(rows, c) {
            None => None,
            Some(t) => Some(seq![t]),
        }
    } else {
        Some(seq![Seq::empty()])
    }
}

/// Column `c` before the width is shared: its header, its cells and its foot.
pub open spec fn first_column<R: Cells>(rows: Seq<&R>, c: int, show_total: bool) -> Option<
    Seq<Seq<char>>,
> {
    match first_cells(rows, c) {
        None => None,
        Some(cells) => match foot(rows, c, show_total) {
            None => None,
            Some(foot) => Some(seq![R::column_models()[c].header] + cells + foot),
        },
    }
}

/// The first `n` columns before the width is shared.
pub open spec fn first_columns<R: Cells>(rows: Seq<&R>, n: nat, show_total: bool) -> Option<
    Seq<Seq<Seq<char>>>,
>
    decreases n,
{
    if n == 0 {
        Some(Seq::empty())
    } else {
        match first_columns(rows, (n - 1) as nat, show_total) {
            None => None,
            Some(before) => match first_column(rows, n - 1, show_total) {
                None => None,
                Some(column) => Some(before.push(column)),
            },
        }
    }
}

/// The length of the longest text.
pub open spec fn longest(s: Seq<Seq<char>>) -> nat
    decreases s.len(),
{
    if s.len() == 0 {
        0
    } else {
        let before = longest(s.drop_last());
        if s.last().len() > before {
            s.last().len()
        } else {
            before
        }
    }
}

/// What the first `n` columns without a flex take.
pub open spec fn taken(cols: Seq<ColumnModel>, columns: Seq<Seq<Seq<char>>>, n: nat) -> nat
    decreases n,
{
    if n == 0 {
        0
    } else {
        taken(cols, columns, (n - 1) as nat) + if cols[n - 1].flex is None {
            longest(columns[n - 1])
        } else {
            0
        }
    }
}

/// The flexes of the first `n` columns together.
pub open spec fn flex_sum(cols: Seq<ColumnModel>, n: nat) -> nat
    decreases n,
{
    if n == 0 {
        0
    } else {
        flex_sum(cols, (n - 1) as nat) + match cols[n - 1].flex {
            Some(f) => f as nat,
            None => 0,
        }
    }
}

/// What separators and padding take.
pub open spec fn separators(padding: nat, n: nat) -> nat {
    (2 * padding + 1) * n + 1
}

/// What is left of the width for the columns with a flex.
pub open spec fn left_over(width: nat, used: nat) -> nat {
    if width >= used {
        (width - used) as nat
    } else {
        0
    }
}

/// The widths of the first `n` columns, and how much width and flex is left.
pub open spec fn spread(
    cols: Seq<ColumnModel>,
    columns: Seq<Seq<Seq<char>>>,
    rest: nat,
    n: nat,
) -> Option<(Seq<nat>, nat, nat)>
    decreases n,
{
    if n == 0 {
        Some((Seq::empty(), rest, flex_sum(cols, cols.len())))
    } else {
        match spread(cols, columns, rest, (n - 1) as nat) {
            None => None,
            Some((widths, left, flex)) => match cols[n - 1].flex {
                None => Some((widths.push(longest(columns[n - 1])), left, flex)),
                Some(f) => if flex == 0 {
                    None
                } else {
                    let w = (left * f) as nat / flex;
                    Some((widths.push(w), (left - w) as nat, (flex - f) as nat))
                },
            },
        }
    }
}

/// The cells of a column with a flex, now that its width is known.
pub open spec fn settled_column<R: Cells>(
    rows: Seq<&R>,
    c: int,
    first: Seq<Seq<char>>,
    width: nat,
) -> Option<Seq<Seq<char>>> {
    if R::column_models()[c].flex is None {
        Some(first)
    } else {
        match cells_of(rows, c, Some(width as usize), width as usize) {
            None => None,
            Some(cells) => Some(seq![first[0]] + cells + first.skip(1 + rows.len() as int)),
        }
    }
}

/// The first `n` columns, now that their widths are known.
pub open spec fn settled_columns<R: Cells>(
    rows: Seq<&R>,
    first: Seq<Seq<Seq<char>>>,
    widths: Seq<nat>,
    n: nat,
) -> Option<Seq<Seq<Seq<char>>>>
    decreases n,
{
    if n == 0 {
        Some(Seq::empty())
    } else {
        match settled_columns(rows, first, widths, (n - 1) as nat) {
            None => None,
            Some(before) => match settled_column(rows, n - 1, first[n - 1], widths[n - 1]) {
                None => None,
                Some(column) => Some(before.push(column)),
            },
        }
    }
}

/// What the first `n` columns take with their padding and separators.
pub open spec fn span(padding: nat, widths: Seq<nat>, n: nat) -> nat
    decreases n,
{
    if n == 0 {
        0
    } else {
        span(padding, widths, (n - 1) as nat) + 2 * padding + widths[n - 1] + 1
    }
}

/// The columns' widths and the texts in them, header first and total last.
#[verifier::ext_equal]
pub struct LayoutModel {
    pub widths: Seq<nat>,
    pub columns: Seq<Seq<Seq<char>>>,
}

/// The layout of a table, if there is one: every cell can be computed and cut to
/// its width, and the sizes can be counted.
pub open spec fn layout_of<R: Cells>(
    rows: Seq<&R>,
    padding: nat,
    width: nat,
    show_total: bool,
) -> Option<LayoutModel> {
    let cols = R::column_models();
    let n = cols.len();
    match first_columns(rows, n, show_total) {
        None => None,
        Some(first) => {
            let used = taken(cols, first, n) + separators(padding, n);
            if used > usize::MAX || flex_sum(cols, n) > usize::MAX {
                None
            } else {
                match spread(cols, first, left_over(width, used), n) {
                    None => None,
                    Some((widths, _, _)) => match settled_columns(rows, first, widths, n) {
                        None => None,
                        Some(columns) => if span(padding, widths, n) > usize::MAX {
                            None
                        } else {
                            Some(LayoutModel { widths, columns })
                        },
                    },
                }
            }
        },
    }
}

/// The columns of a layout have a width and a cell for every line.
pub proof fn lemma_layout_sizes<R: Cells>(
    rows: Seq<&R>,
    padding: nat,
    width: nat,
    show_total: bool,
)
    ensures
        layout_of(rows, padding, width, show_total) matches Some(l) ==> {
            &&& l.widths.len() == R::column_models().len()
            &&& l.columns.len() == R::column_models().len()
            &&& forall|c: int|
                0 <= c < l.columns.len() ==> (#[trigger] l.columns[c]).len() == 1 + rows.len()
                    + if show_total {
                    1int
                } else {
                    0int
                }
        },
{
    let cols = R::column_models();
    let n = cols.len();
    if layout_of(rows, padding, width, show_total) is Some {
        lemma_first_columns(rows, n, show_total);
        let first = first_columns(rows, n, show_total)->0;
        let used = taken(cols, first, n) + separators(padding, n);
        lemma_spread(cols, first, left_over(width, used), n);
        let (widths, _, _) = spread(cols, first, left_over(width, used), n)->0;
        lemma_settled_columns(rows, first, widths, n, show_total);
    }
}

proof fn lemma_cells_of<R: Cells>(rows: Seq<&R>, c: int, width: Option<usize>, limit: usize)
    ensures
        cells_of(rows, c, width, limit) matches Some(cells) ==> cells.len() == rows.len(),
    decreases rows.len(),
{
    if rows.len() > 0 {
        lemma_cells_of(rows.drop_last(), c, width, limit);
    }
}

proof fn lemma_first_columns<R: Cells>(rows: Seq<&R>, n: nat, show_total: bool)
    ensures
        first_columns(rows, n, show_total) matches Some(first) ==> {
            &&& first.len() == n
            &&& forall|c: int|
                0 <= c < n ==> (#[trigger] first[c]).len() == 1 + rows.len() + if show_total {
                    1int
                } else {
                    0int
                }
        },
    decreases n,
{
    if n > 0 {
        lemma_first_columns(rows, (n - 1) as nat, show_total);
        let col = R::column_models()[n - 1];
        lemma_cells_of(
            rows,
            n - 1,
            None,
            match col.max_width {
                Some(w) => w,
                None => usize::MAX,
            },
        );
    }
}

/// Sharing the width gives every column one, and gives away no more than there is.
pub proof fn lemma_spread(
    cols: Seq<ColumnModel>,
    columns: Seq<Seq<Seq<char>>>,
    rest: nat,
    n: nat,
)
    requires
        n <= cols.len(),
    ensures
        spread(cols, columns, rest, n) matches Some((widths, left, flex)) ==> {
            &&& widths.len() == n
            &&& left <= rest
            &&& flex == flex_sum(cols, cols.len()) - flex_sum(cols, n)
            &&& forall|c: int|
                0 <= c < n && cols[c].flex is Some ==> (#[trigger] widths[c]) <= rest
        },
        flex_sum(cols, n) <= flex_sum(cols, cols.len()),
    decreases n,
{
    lemma_flex_sum(cols, n);
    if n > 0 {
        lemma_spread(cols, columns, rest, (n - 1) as nat);
        if let Some((widths, left, flex)) = spread(cols, columns, rest, (n - 1) as nat) {
            if let Some(f) = cols[n - 1].flex {
                if flex != 0 {
                    lemma_share(left, f as nat, flex);
                }
            }
        }
    }
}

/// A share is no more than what is shared.
pub proof fn lemma_share(left: nat, f: nat, flex: nat)
    requires
        f <= flex,
        flex > 0,
    ensures
        (left * f) as nat / flex <= left,
        f == flex ==> (left * f) as nat / flex == left,
{
    assert((left * f) / flex <= left) by (nonlinear_arith)
        requires
            f <= flex,
            flex > 0,
            left >= 0,
    ;
    assert(f == flex ==> (left * f) / flex == left) by (nonlinear_arith)
        requires
            flex > 0,
            left >= 0,
    ;
}

proof fn lemma_flex_sum(cols: Seq<ColumnModel>, n: nat)
    requires
        n <= cols.len(),
    ensures
        flex_sum(cols, n) <= flex_sum(cols, cols.len()),
    decreases cols.len() - n,
{
    if n < cols.len() {
        lemma_flex_sum(cols, n + 1);
    }
}

proof fn lemma_settled_columns<R: Cells>(
    rows: Seq<&R>,
    first: Seq<Seq<Seq<char>>>,
    widths: Seq<nat>,
    n: nat,
    show_total: bool,
)
    requires
        n <= first.len(),
        forall|c: int|
            0 <= c < first.len() ==> (#[trigger] first[c]).len() == 1 + rows.len()
                + if show_total {
                1int
            } else {
                0int
            },
    ensures
        settled_columns(rows, first, widths, n) matches Some(columns) ==> {
            &&& columns.len() == n
            &&& forall|c: int|
                0 <= c < n ==> (#[trigger] columns[c]).len() == 1 + rows.len() + if show_total {
                    1int
                } else {
                    0int
                }
        },
    decreases n,
{
    if n > 0 {
        lemma_settled_columns(rows, first, widths, (n - 1) as nat, show_total);
        let w = widths[n - 1] as usize;
        lemma_cells_of(rows, n - 1, Some(w), w);
        assert(first[n - 1].len() >= 1 + rows.len());
    }
}

/// The widths of the columns with a flex among the first `n` together.
pub open spec fn flex_widths(cols: Seq<ColumnModel>, widths: Seq<nat>, n: nat) -> nat
    decreases n,
{
    if n == 0 {
        0
    } else {
        flex_widths(cols, widths, (n - 1) as nat) + if cols[n - 1].flex is Some {
            widths[n - 1]
        } else {
            0
        }
    }
}

/// The columns with a flex share out exactly what is left of the width, if any
/// of them has a flex above zero.
pub proof fn law_flex_fills_width(
    cols: Seq<ColumnModel>,
    columns: Seq<Seq<Seq<char>>>,
    rest: nat,
)
    requires
        flex_sum(cols, cols.len()) > 0,
        spread(cols, columns, rest, cols.len()) is Some,
    ensures
        flex_widths(cols, (spread(cols, columns, rest, cols.len())->0).0, cols.len()) == rest,
{
    lemma_spread_conserves(cols, columns, rest, cols.len());
    lemma_spread(cols, columns, rest, cols.len());
}

proof fn lemma_spread_conserves(
    cols: Seq<ColumnModel>,
    columns: Seq<Seq<Seq<char>>>,
    rest: nat,
    n: nat,
)
    requires
        n <= cols.len(),
        flex_sum(cols, cols.len()) > 0,
        spread(cols, columns, rest, n) is Some,
    ensures
        ({
            let (widths, left, flex) = spread(cols, columns, rest, n)->0;
            &&& flex_widths(cols, widths, n) + left == rest
            &&& flex == 0 ==> left == 0
        }),
    decreases n,
{
    if n > 0 {
        let (widths, left, flex) = spread(cols, columns, rest, (n - 1) as nat)->0;
        lemma_spread_conserves(cols, columns, rest, (n - 1) as nat);
        lemma_spread(cols, columns, rest, (n - 1) as nat);
        lemma_flex_sum(cols, n);
        let (after, _, _) = spread(cols, columns, rest, n)->0;
        lemma_flex_widths_prefix(cols, widths, after, (n - 1) as nat);
        if let Some(f) = cols[n - 1].flex {
            lemma_share(left, f as nat, flex);
        }
    }
}

proof fn lemma_flex_widths_prefix(cols: Seq<ColumnModel>, a: Seq<nat>, b: Seq<nat>, n: nat)
    requires
        n <= a.len(),
        n <= b.len(),
        forall|i: int| 0 <= i < n ==> a[i] == b[i],
    ensures
        flex_widths(cols, a, n) == flex_widths(cols, b, n),
    decreases n,
{
    if n > 0 {
        lemma_flex_widths_prefix(cols, a, b, (n - 1) as nat);
    }
}

/// Where the cells of the first rows are missing, those of all are.
proof fn lemma_cells_missing<R: Cells>(
    rows: Seq<&R>,
    c: int,
    width: Option<usize>,
    limit: usize,
    n: int,
)
    requires
        0 <= n <= rows.len(),
        cells_of(rows.take(n), c, width, limit) is None,
    ensures
        cells_of(rows, c, width, limit) is None,
    decreases rows.len(),
{
    if n < rows.len() {
        assert(rows.drop_last().take(n) =~= rows.take(n));
        lemma_cells_missing(rows.drop_last(), c, width, limit, n);
    } else {
        assert(rows.take(n) =~= rows);
    }
}

/// The cells of a column.
fn fill_cells<R: Cells>(rows: &Vec<&R>, c: usize, width: Option<usize>, limit: usize) -> (r: Option<
    Vec<String>,
>)
    requires
        c < R::column_models().len(),
    ensures
        match r {
            Some(cells) => cells_of(rows@, c as int, width, limit) == Some(text::texts(cells@)),
            None => cells_of(rows@, c as int, width, limit) is None,
        },
{
    let mut r: Vec<String> = Vec::new();
    let mut i: usize = 0;
    proof {
        assert(rows@.take(0) =~= Seq::empty());
        assert(text::texts(r@) =~= Seq::empty());
    }
    while i < rows.len()
        invariant
            i <= rows@.len(),
            c < R::column_models().len(),
            cells_of(rows@.take(i as int), c as int, width, limit) == Some(text::texts(r@)),
        decreases rows@.len() - i,
    {
        let ghost seen = rows@.take(i as int + 1);
        proof {
            assert(seen.drop_last() =~= rows@.take(i as int));
            assert(seen.last() == rows@[i as int]);
        }
        let cell = match rows[i].value(c, width) {
            Some(t) => text::chop(t, limit),
            None => None,
        };
        match cell {
            Some(t) => {
                let ghost before = text::texts(r@);
                let ghost shown = t@;
                r.push(t);
                assert(text::texts(r@) =~= before.push(shown));
            },
            None => {
                proof {
                    lemma_cells_missing(rows@, c as int, width, limit, i as int + 1);
                }
                return None;
            },
        }
        i += 1;
    }
    assert(rows@.take(i as int) =~= rows@);
    Some(r)
}

/// A column before the width is shared.
fn fill_column<R: Cells>(columns: &Vec<Column>, rows: &Vec<&R>, c: usize, show_total: bool) -> (r:
    Option<Vec<String>>)
    requires
        c < columns@.len(),
        column_views(columns@) == R::column_models(),
    ensures
        match r {
            Some(column) => first_column(rows@, c as int, show_total) == Some(
                text::texts(column@),
            ),
            None => first_column(rows@, c as int, show_total) is None,
        },
{
    let col = &columns[c];
    assert(column_views(columns@)[c as int] == col@);
    let cells = if col.flex.is_some() {
        let mut cells: Vec<String> = Vec::new();
        let mut i: usize = 0;
        while i < rows.len()
            invariant
                i <= rows@.len(),
                cells@.len() == i,
                forall|j: int| 0 <= j < i ==> (#[trigger] cells@[j])@ == Seq::<char>::empty(),
            decreases rows@.len() - i,
        {
            cells.push(String::new());
            i += 1;
        }
        assert(text::texts(cells@) =~= Seq::new(rows@.len(), |i: int| Seq::<char>::empty()));
        cells
    } else {
        let limit = match col.max_width {
            Some(w) => w,
            None => usize::MAX,
        };
        match fill_cells(rows, c, None, limit) {
            Some(cells) => cells,
            None => {
                return None;
            },
        }
    };
    let ghost shown = text::texts(cells@);
    let mut column = cells;
    column.insert(0, col.header.clone());
    assert(text::texts(column@) =~= seq![col.header@] + shown);
    if show_total {
        let t = if col.has_total {
            match R::total(rows, c) {
                Some(t) => t,
                None => {
                    return None;
                },
            }
        } else {
            String::new()
        };
        let ghost last = t@;
        column.push(t);
        assert(text::texts(column@) =~= seq![col.header@] + shown + seq![last]);
        if !col.has_total {
            assert(last =~= Seq::empty());
        }
    } else {
        assert(text::texts(column@) =~= seq![col.header@] + shown + Seq::empty());
    }
    Some(column)
}

/// The contents of several columns of texts.
pub open spec fn text_columns(s: Seq<Vec<String>>) -> Seq<Seq<Seq<char>>> {
    s.map_values(|c: Vec<String>| text::texts(c@))
}

/// The length of the longest text.
fn find_longest(column: &Vec<String>) -> (r: usize)
    ensures
        r == longest(text::texts(column@)),
{
    let ghost all = text::texts(column@);
    let mut r: usize = 0;
    let mut i: usize = 0;
    while i < column.len()
        invariant
            i <= column@.len(),
            all == text::texts(column@),
            r == longest(all.take(i as int)),
        decreases column@.len() - i,
    {
        assert(all.take(i as int + 1).drop_last() =~= all.take(i as int));
        assert(all.take(i as int + 1).last() == column@[i as int]@);
        let n = text::length(column[i].as_str());
        if n > r {
            r = n;
        }
        i += 1;
    }
    assert(all.take(i as int) =~= all);
    r
}

/// A table's columns with their widths.
#[derive(Debug)]
pub struct Layout {
    pub widths: Vec<usize>,
    pub columns: Vec<Vec<String>>,
}

/// The widths as plain numbers.
pub open spec fn width_views(s: Seq<usize>) -> Seq<nat> {
    s.map_values(|w: usize| w as nat)
}

impl View for Layout {
    type V = LayoutModel;

    open spec fn view(&self) -> LayoutModel {
        LayoutModel { widths: width_views(self.widths@), columns: text_columns(self.columns@) }
    }
}

proof fn lemma_taken_grows(cols: Seq<ColumnModel>, columns: Seq<Seq<Seq<char>>>, n: nat, m: nat)
    requires
        n <= m,
    ensures
        taken(cols, columns, n) <= taken(cols, columns, m),
    decreases m - n,
{
    if n < m {
        lemma_taken_grows(cols, columns, n, (m - 1) as nat);
    }
}

proof fn lemma_span_grows(padding: nat, widths: Seq<nat>, n: nat, m: nat)
    requires
        n <= m,
    ensures
        span(padding, widths, n) <= span(padding, widths, m),
    decreases m - n,
{
    if n < m {
        lemma_span_grows(padding, widths, n, (m - 1) as nat);
    }
}

/// More columns have no less flex.
pub proof fn lemma_flex_grows(cols: Seq<ColumnModel>, n: nat, m: nat)
    requires
        n <= m,
    ensures
        flex_sum(cols, n) <= flex_sum(cols, m),
    decreases m - n,
{
    if n < m {
        lemma_flex_grows(cols, n, (m - 1) as nat);
    }
}

/// A part of the span is no more than the whole.
pub proof fn lemma_span_part(padding: nat, widths: Seq<nat>, c: int)
    requires
        0 <= c < widths.len(),
    ensures
        span(padding, widths, c as nat) + 2 * padding + widths[c] + 1 <= span(
            padding,
            widths,
            widths.len(),
        ),
{
    lemma_span_grows(padding, widths, (c + 1) as nat, widths.len());
}

proof fn lemma_first_missing<R: Cells>(rows: Seq<&R>, n: nat, m: nat, show_total: bool)
    requires
        n <= m,
        first_columns(rows, n, show_total) is None,
    ensures
        first_columns(rows, m, show_total) is None,
    decreases m - n,
{
    if n < m {
        lemma_first_missing(rows, n, (m - 1) as nat, show_total);
    }
}

proof fn lemma_spread_missing(
    cols: Seq<ColumnModel>,
    columns: Seq<Seq<Seq<char>>>,
    rest: nat,
    n: nat,
    m: nat,
)
    requires
        n <= m,
        spread(cols, columns, rest, n) is None,
    ensures
        spread(cols, columns, rest, m) is None,
    decreases m - n,
{
    if n < m {
        lemma_spread_missing(cols, columns, rest, n, (m - 1) as nat);
    }
}

proof fn lemma_settled_missing<R: Cells>(
    rows: Seq<&R>,
    first: Seq<Seq<Seq<char>>>,
    widths: Seq<nat>,
    n: nat,
    m: nat,
)
    requires
        n <= m,
        settled_columns(rows, first, widths, n) is None,
    ensures
        settled_columns(rows, first, widths, m) is None,
    decreases m - n,
{
    if n < m {
        lemma_settled_missing(rows, first, widths, n, (m - 1) as nat);
    }
}

/// All columns before the width is shared.
fn fill_columns<R: Cells>(columns: &Vec<Column>, rows: &Vec<&R>, show_total: bool) -> (r: Option<
    Vec<Vec<String>>,
>)
    requires
        column_views(columns@) == R::column_models(),
    ensures
        match r {
            Some(first) => first_columns(rows@, columns@.len(), show_total) == Some(
                text_columns(first@),
            ),
            None => first_columns(rows@, columns@.len(), show_total) is None,
        },
{
    let mut r: Vec<Vec<String>> = Vec::new();
    let mut c: usize = 0;
    assert(text_columns(r@) =~= Seq::empty());
    while c < columns.len()
        invariant
            c <= columns@.len(),
            column_views(columns@) == R::column_models(),
            first_columns(rows@, c as nat, show_total) == Some(text_columns(r@)),
        decreases columns@.len() - c,
    {
        match fill_column(columns, rows, c, show_total) {
            Some(column) => {
                let ghost before = text_columns(r@);
                let ghost shown = text::texts(column@);
                r.push(column);
                assert(text_columns(r@) =~= before.push(shown));
            },
            None => {
                proof {
                    lemma_first_missing(rows@, c as nat + 1, columns@.len(), show_total);
                }
                return None;
            },
        }
        c += 1;
    }
    Some(r)
}

/// What the columns without a flex take, unless it is too much to count.
fn sum_taken(columns: &Vec<Column>, first: &Vec<Vec<String>>) -> (r: Option<usize>)
    requires
        first@.len() == columns@.len(),
    ensures
        match r {
            Some(n) => n == taken(
                column_views(columns@),
                text_columns(first@),
                columns@.len(),
            ),
            None => taken(column_views(columns@), text_columns(first@), columns@.len())
                > usize::MAX,
        },
{
    let ghost cols = column_views(columns@);
    let ghost all = text_columns(first@);
    let mut n: usize = 0;
    let mut c: usize = 0;
    while c < columns.len()
        invariant
            c <= columns@.len(),
            first@.len() == columns@.len(),
            cols == column_views(columns@),
            all == text_columns(first@),
            n == taken(cols, all, c as nat),
        decreases columns@.len() - c,
    {
        proof {
            assert(cols[c as int] == columns@[c as int]@);
            assert(all[c as int] == text::texts(first@[c as int]@));
            lemma_taken_grows(cols, all, c as nat + 1, columns@.len());
        }
        if columns[c].flex.is_none() {
            let w = find_longest(&first[c]);
            if w > usize::MAX - n {
                return None;
            }
            n += w;
        }
        c += 1;
    }
    Some(n)
}

/// The widths of the columns.
fn spread_width(columns: &Vec<Column>, first: &Vec<Vec<String>>, rest: usize, flex_total: usize) -> (r:
    Option<Vec<usize>>)
    requires
        first@.len() == columns@.len(),
        flex_total == flex_sum(column_views(columns@), columns@.len()),
    ensures
        match r {
            Some(widths) => spread(
                column_views(columns@),
                text_columns(first@),
                rest as nat,
                columns@.len(),
            ) matches Some((w, _, _)) && w == width_views(widths@),
            None => spread(
                column_views(columns@),
                text_columns(first@),
                rest as nat,
                columns@.len(),
            ) is None,
        },
{
    let ghost cols = column_views(columns@);
    let ghost all = text_columns(first@);
    let mut widths: Vec<usize> = Vec::new();
    let mut left = rest;
    let mut flex = flex_total;
    let mut c: usize = 0;
    assert(width_views(widths@) =~= Seq::empty());
    while c < columns.len()
        invariant
            c <= columns@.len(),
            first@.len() == columns@.len(),
            cols == column_views(columns@),
            all == text_columns(first@),
            spread(cols, all, rest as nat, c as nat) == Some(
                (width_views(widths@), left as nat, flex as nat),
            ),
        decreases columns@.len() - c,
    {
        let ghost before = width_views(widths@);
        proof {
            assert(cols[c as int] == columns@[c as int]@);
            assert(all[c as int] == text::texts(first@[c as int]@));
            lemma_spread(cols, all, rest as nat, c as nat);
            lemma_flex_sum(cols, c as nat + 1);
        }
        match columns[c].flex {
            None => {
                let w = find_longest(&first[c]);
                widths.push(w);
                assert(width_views(widths@) =~= before.push(w as nat));
            },
            Some(f) => {
                if flex == 0 {
                    proof {
                        lemma_spread_missing(cols, all, rest as nat, c as nat + 1, columns@.len());
                    }
                    return None;
                }
                proof {
                    lemma_share(left as nat, f as nat, flex as nat);
                    let l = left as int;
                    let g = f as int;
                    assert(0 <= l * g <= 0xffff_ffff_ffff_ffff * 0xffff_ffff_ffff_ffff)
                        by (nonlinear_arith)
                        requires
                            0 <= l <= 0xffff_ffff_ffff_ffff,
                            0 <= g <= 0xffff_ffff_ffff_ffff,
                    ;
                }
                let w = ((left as u128 * f as u128) / flex as u128) as usize;
                widths.push(w);
                assert(width_views(widths@) =~= before.push(w as nat));
                left -= w;
                flex -= f;
            },
        }
        c += 1;
    }
    Some(widths)
}

/// Fills the columns with a flex, now that their widths are known.
fn settle_columns<R: Cells>(
    columns: &Vec<Column>,
    rows: &Vec<&R>,
    first: Vec<Vec<String>>,
    widths: &Vec<usize>,
) -> (r: Option<Vec<Vec<String>>>)
    requires
        column_views(columns@) == R::column_models(),
        first@.len() == columns@.len(),
        widths@.len() == columns@.len(),
        forall|c: int| 0 <= c < first@.len() ==> (#[trigger] first@[c])@.len() >= 1 + rows@.len(),
    ensures
        match r {
            Some(settled) => settled_columns(
                rows@,
                text_columns(first@),
                width_views(widths@),
                columns@.len(),
            ) == Some(text_columns(settled@)),
            None => settled_columns(
                rows@,
                text_columns(first@),
                width_views(widths@),
                columns@.len(),
            ) is None,
        },
{
    let ghost before = first@;
    let ghost all = text_columns(before);
    let ghost shares = width_views(widths@);
    let num_rows = rows.len();
    let mut settled = first;
    let mut c: usize = 0;
    assert(text_columns(settled@).take(0) =~= Seq::empty());
    while c < columns.len()
        invariant
            c <= columns@.len(),
            num_rows == rows@.len(),
            column_views(columns@) == R::column_models(),
            before == first@,
            before.len() == columns@.len(),
            settled@.len() == columns@.len(),
            widths@.len() == columns@.len(),
            all == text_columns(before),
            shares == width_views(widths@),
            forall|k: int| 0 <= k < before.len() ==> (#[trigger] before[k])@.len() >= 1 + num_rows,
            forall|k: int| c <= k < before.len() ==> #[trigger] settled@[k] == before[k],
            settled_columns(rows@, all, shares, c as nat) == Some(
                text_columns(settled@).take(c as int),
            ),
        decreases columns@.len() - c,
    {
        let ghost earlier = settled@;
        let w = widths[c];
        proof {
            assert(R::column_models()[c as int] == columns@[c as int]@);
            assert(shares[c as int] == w);
            assert(all[c as int] == text::texts(before[c as int]@));
            assert(settled@[c as int] == before[c as int]);
        }
        if columns[c].flex.is_some() {
            let cells = match fill_cells(rows, c, Some(w), w) {
                Some(cells) => cells,
                None => {
                    proof {
                        lemma_settled_missing(rows@, all, shares, c as nat + 1, columns@.len());
                    }
                    return None;
                },
            };
            proof {
                lemma_cells_of(rows@, c as int, Some(w), w);
            }
            let mut column: Vec<String> = Vec::new();
            column.push(settled[c][0].clone());
            let mut i: usize = 0;
            let ghost shown = text::texts(cells@);
            assert(text::texts(column@) =~= seq![all[c as int][0]]);
            while i < cells.len()
                invariant
                    i <= cells@.len(),
                    shown == text::texts(cells@),
                    text::texts(column@) == seq![all[c as int][0]] + shown.take(i as int),
                decreases cells@.len() - i,
            {
                let ghost so_far = text::texts(column@);
                column.push(cells[i].clone());
                assert(text::texts(column@) =~= so_far.push(shown[i as int]));
                assert(shown.take(i as int + 1) =~= shown.take(i as int).push(shown[i as int]));
                i += 1;
            }
            assert(shown.take(i as int) =~= shown);
            let total = settled[c].len();
            let mut k = 1 + num_rows;
            let ghost tail = all[c as int].skip(1 + num_rows);
            assert(text::texts(column@) =~= seq![all[c as int][0]] + shown + tail.take(0));
            while k < total
                invariant
                    1 + num_rows <= k <= total,
                    c < settled@.len(),
                    total == settled@[c as int]@.len(),
                    all[c as int] == text::texts(settled@[c as int]@),
                    tail == all[c as int].skip(1 + num_rows),
                    text::texts(column@) == seq![all[c as int][0]] + shown + tail.take(
                        k - 1 - num_rows,
                    ),
                decreases total - k,
            {
                let ghost so_far = text::texts(column@);
                column.push(settled[c][k].clone());
                proof {
                    let n = k - 1 - num_rows;
                    assert(tail[n] == settled@[c as int]@[k as int]@);
                    assert(text::texts(column@) =~= so_far.push(tail[n]));
                    assert(tail.take(n + 1) =~= tail.take(n).push(tail[n]));
                    assert(text::texts(column@) =~= seq![all[c as int][0]] + shown + tail.take(
                        n + 1,
                    ));
                }
                k += 1;
            }
            assert(tail.take(total - 1 - num_rows) =~= tail);
            settled[c] = column;
        }
        proof {
            let now = text_columns(settled@);
            assert(now.take(c as int + 1) =~= text_columns(earlier).take(c as int).push(
                now[c as int],
            ));
        }
        c += 1;
    }
    assert(text_columns(settled@).take(c as int) =~= text_columns(settled@));
    Some(settled)
}

/// Whether what the columns take with padding and separators can be counted.
fn span_fits(padding: usize, widths: &Vec<usize>) -> (r: bool)
    ensures
        r == (span(padding as nat, width_views(widths@), widths@.len()) <= usize::MAX),
{
    let ghost all = width_views(widths@);
    let mut n: usize = 0;
    let mut c: usize = 0;
    while c < widths.len()
        invariant
            c <= widths@.len(),
            all == width_views(widths@),
            n == span(padding as nat, all, c as nat),
        decreases widths@.len() - c,
    {
        proof {
            assert(all[c as int] == widths@[c as int]);
            lemma_span_grows(padding as nat, all, c as nat + 1, widths@.len());
        }
        let next = n as u128 + 2 * padding as u128 + widths[c] as u128 + 1;
        if next > usize::MAX as u128 {
            return false;
        }
        n = next as usize;
        c += 1;
    }
    true
}

/// What separators and padding take, unless it is too much to count.
fn count_separators(padding: usize, n: usize) -> (r: Option<usize>)
    ensures
        match r {
            Some(s) => s == separators(padding as nat, n as nat),
            None => separators(padding as nat, n as nat) > usize::MAX,
        },
{
    let each = 2 * padding as u128 + 1;
    if each > usize::MAX as u128 {
        proof {
            let e = each as int;
            let m = n as int;
            assert(m == 0 || e <= e * m) by (nonlinear_arith)
                requires
                    0 <= e,
                    0 <= m,
            ;
        }
        return if n == 0 {
            Some(1)
        } else {
            None
        };
    }
    proof {
        let e = each as int;
        let m = n as int;
        assert(0 <= e * m <= 0xffff_ffff_ffff_ffff * 0xffff_ffff_ffff_ffff) by (nonlinear_arith)
            requires
                0 <= e <= 0xffff_ffff_ffff_ffff,
                0 <= m <= 0xffff_ffff_ffff_ffff,
        ;
    }
    let s = each * n as u128 + 1;
    if s > usize::MAX as u128 {
        None
    } else {
        Some(s as usize)
    }
}

/// The layout of a table.
pub fn lay_out<R: Cells>(
    columns: &Vec<Column>,
    flex_total: usize,
    rows: &Vec<&R>,
    padding: usize,
    width: usize,
    show_total: bool,
) -> (r: Option<Layout>)
    requires
        column_views(columns@) == R::column_models(),
        flex_total == flex_sum(column_views(columns@), columns@.len()),
    ensures
        match r {
            Some(layout) => layout_of(rows@, padding as nat, width as nat, show_total) == Some(
                layout@,
            ) && layout.widths@.len() == columns@.len() && layout.columns@.len() == columns@.len(),
            None => layout_of(rows@, padding as nat, width as nat, show_total) is None,
        },
{
    proof {
        lemma_layout_sizes(rows@, padding as nat, width as nat, show_total);
    }
    let n = columns.len();
    let first = match fill_columns(columns, rows, show_total) {
        Some(first) => first,
        None => {
            return None;
        },
    };
    proof {
        lemma_first_columns(rows@, n as nat, show_total);
        assert(text_columns(first@).len() == first@.len());
        assert forall|c: int| 0 <= c < first@.len() implies (#[trigger] first@[c])@.len() >= 1
            + rows@.len() by {
            assert(text_columns(first@)[c] == text::texts(first@[c]@));
        }
    }
    let taken_width = match sum_taken(columns, &first) {
        Some(taken_width) => taken_width,
        None => {
            return None;
        },
    };
    let separator_width = match count_separators(padding, n) {
        Some(separator_width) => separator_width,
        None => {
            return None;
        },
    };
    let used = match taken_width.checked_add(separator_width) {
        Some(used) => used,
        None => {
            return None;
        },
    };
    let rest = width.saturating_sub(used);
    let widths = match spread_width(columns, &first, rest, flex_total) {
        Some(widths) => widths,
        None => {
            return None;
        },
    };
    proof {
        lemma_spread(column_views(columns@), text_columns(first@), rest as nat, n as nat);
    }
    let settled = match settle_columns(columns, rows, first, &widths) {
        Some(settled) => settled,
        None => {
            return None;
        },
    };
    if !span_fits(padding, &widths) {
        return None;
    }
    let layout = Layout { widths, columns: settled };
    assert(layout_of(rows@, padding as nat, width as nat, show_total) == Some(layout@));
    assert(text_columns(settled@).len() == settled@.len());
    Some(layout)
}

/// A text is shown as it is where it fits, and else as much of it as fits with an
/// ellipsis behind it.
pub open spec fn shows_text(shown: Seq<char>, t: Seq<char>, limit: int) -> bool {
    if t.len() <= limit {
        shown == t
    } else {
        shown.len() == limit && limit > 0 && shown.last() == '…' && shown.drop_last() == t.take(
            limit - 1,
        )
    }
}

/// A column shows its header, then the cell of each row in order, and last the
/// total if it has one and totals are shown. A column without a flex is as wide as
/// the longest of these, and cells are cut only where a column's width is given.
pub proof fn law_layout_cells<R: Cells>(
    rows: Seq<&R>,
    padding: nat,
    width: nat,
    show_total: bool,
    c: int,
    r: int,
)
    requires
        0 <= c < R::column_models().len(),
        0 <= r < rows.len(),
    ensures
        layout_of(rows, padding, width, show_total) matches Some(l) ==> {
            let col = R::column_models()[c];
            let told = if col.flex is Some {
                Some(l.widths[c] as usize)
            } else {
                None
            };
            let limit = if col.flex is Some {
                l.widths[c] as usize
            } else if col.max_width is Some {
                col.max_width->0
            } else {
                usize::MAX
            };
            let lines = l.columns[c];
            &&& lines.len() == 1 + rows.len() + if show_total {
                1int
            } else {
                0int
            }
            &&& lines[0] == col.header
            &&& rows[r].cell(c, told) matches Some(t) && shows_text(lines[1 + r], t, limit as int)
            &&& show_total && col.has_total ==> R::total_cell(rows, c) == Some(lines.last())
            &&& show_total && !col.has_total ==> lines.last().len() == 0
            &&& col.flex is None ==> {
                &&& forall|i: int| 0 <= i < lines.len() ==> (#[trigger] lines[i]).len() <= l.widths[c]
                &&& exists|i: int| 0 <= i < lines.len() && (#[trigger] lines[i]).len() == l.widths[c]
            }
        },
{
    let cols = R::column_models();
    let n = cols.len();
    let col = cols[c];
    if let Some(l) = layout_of(rows, padding, width, show_total) {
        lemma_layout_sizes(rows, padding, width, show_total);
        lemma_first_columns(rows, n, show_total);
        let first = first_columns(rows, n, show_total)->0;
        lemma_first_at(rows, n, show_total, c);
        let used = taken(cols, first, n) + separators(padding, n);
        let rest = left_over(width, used);
        lemma_spread(cols, first, rest, n);
        let (widths, _, _) = spread(cols, first, rest, n)->0;
        lemma_width_at(cols, first, rest, n, c);
        lemma_settled_at(rows, first, widths, n, c);
        if col.flex is None {
            let limit = match col.max_width {
                Some(w) => w,
                None => usize::MAX,
            };
            lemma_cell_at(rows, c, None, limit, r);
            lemma_longest(first[c]);
        } else {
            lemma_cell_at(rows, c, Some(widths[c] as usize), widths[c] as usize, r);
        }
    }
}

proof fn lemma_cell_at<R: Cells>(
    rows: Seq<&R>,
    c: int,
    width: Option<usize>,
    limit: usize,
    r: int,
)
    requires
        0 <= r < rows.len(),
    ensures
        cells_of(rows, c, width, limit) matches Some(cells) ==> {
            &&& cells.len() == rows.len()
            &&& rows[r].cell(c, width) matches Some(t) && shows_text(cells[r], t, limit as int)
        },
    decreases rows.len(),
{
    lemma_cells_of(rows, c, width, limit);
    if cells_of(rows, c, width, limit) is Some {
        let last = rows.len() - 1;
        let before = cells_of(rows.drop_last(), c, width, limit)->0;
        lemma_cells_of(rows.drop_last(), c, width, limit);
        if r < last {
            lemma_cell_at(rows.drop_last(), c, width, limit, r);
        } else {
            let t = rows[last].cell(c, width)->0;
            let shown = text::chopped(t, limit as nat)->0;
            if t.len() > limit {
                assert(shown.drop_last() =~= t.take(limit - 1));
            }
        }
    }
}

proof fn lemma_first_at<R: Cells>(rows: Seq<&R>, n: nat, show_total: bool, c: int)
    requires
        0 <= c < n,
    ensures
        first_columns(rows, n, show_total) matches Some(first) ==> first.len() == n
            && first_column(rows, c, show_total) == Some(first[c]),
    decreases n,
{
    lemma_first_columns(rows, n, show_total);
    if c < n - 1 {
        lemma_first_at(rows, (n - 1) as nat, show_total, c);
    }
    lemma_first_columns(rows, (n - 1) as nat, show_total);
}

proof fn lemma_width_at(
    cols: Seq<ColumnModel>,
    columns: Seq<Seq<Seq<char>>>,
    rest: nat,
    n: nat,
    c: int,
)
    requires
        0 <= c < n <= cols.len(),
    ensures
        spread(cols, columns, rest, n) matches Some((widths, _, _)) ==> widths.len() == n && (
        cols[c].flex is None ==> widths[c] == longest(columns[c])),
    decreases n,
{
    lemma_spread(cols, columns, rest, n);
    lemma_spread(cols, columns, rest, (n - 1) as nat);
    if c < n - 1 {
        lemma_width_at(cols, columns, rest, (n - 1) as nat, c);
    }
}

proof fn lemma_settled_at<R: Cells>(
    rows: Seq<&R>,
    first: Seq<Seq<Seq<char>>>,
    widths: Seq<nat>,
    n: nat,
    c: int,
)
    requires
        0 <= c < n,
    ensures
        settled_columns(rows, first, widths, n) matches Some(columns) ==> columns.len() == n
            && settled_column(rows, c, first[c], widths[c]) == Some(columns[c]),
    decreases n,
{
    lemma_settled_len(rows, first, widths, (n - 1) as nat);
    if c < n - 1 {
        lemma_settled_at(rows, first, widths, (n - 1) as nat, c);
    }
}

proof fn lemma_settled_len<R: Cells>(
    rows: Seq<&R>,
    first: Seq<Seq<Seq<char>>>,
    widths: Seq<nat>,
    n: nat,
)
    ensures
        settled_columns(rows, first, widths, n) matches Some(columns) ==> columns.len() == n,
    decreases n,
{
    if n > 0 {
        lemma_settled_len(rows, first, widths, (n - 1) as nat);
    }
}

proof fn lemma_longest(s: Seq<Seq<char>>)
    ensures
        forall|i: int| 0 <= i < s.len() ==> (#[trigger] s[i]).len() <= longest(s),
        s.len() > 0 ==> exists|i: int| 0 <= i < s.len() && (#[trigger] s[i]).len() == longest(s),
    decreases s.len(),
{
    if s.len() > 0 {
        let rest = s.drop_last();
        let last = s.len() - 1;
        lemma_longest(rest);
        assert forall|i: int| 0 <= i < s.len() implies (#[trigger] s[i]).len() <= longest(s) by {
            if i < last {
                assert(rest[i] == s[i]);
            }
        }
        if s[last].len() > longest(rest) || rest.len() == 0 {
            assert(s[last].len() == longest(s));
        } else {
            let i = choose|i: int| 0 <= i < rest.len() && (#[trigger] rest[i]).len() == longest(rest);
            assert(s[i].len() == longest(s));
        }
    }
}

} // verus!
