//! What holds of tables that are shown again.

use crate::assoc;
use crate::style::{Color, PaletteModel};
use crate::table;
use crate::table::draw::FrameModel;
use crate::table::layout::LayoutModel;
use crate::table::state;
use crate::table::state::{RowHash, RowModel, TableModel};
use crate::table::Row;
use vstd::prelude::*;

verus! {

/// Two rows show the same in a section, whatever it remembers.
pub open spec fn same_section<R: Row>(a: &R, b: &R, s: int, width: nat, palette: PaletteModel) -> bool {
    forall|sub: Option<TableModel>|
        state::sub_fits(sub, R::shape().subs[s]) ==> #[trigger] a.section_content(
            s,
            sub,
            width,
            palette,
        ) == b.section_content(s, sub, width, palette)
}

/// A row's section can be seen.
pub open spec fn shown(r: RowModel, s: int) -> bool {
    r.show_sub && r.show_sections[s]
}

/// Rows that share a memory do not quarrel over it: a section of theirs that can
/// be seen remembers nothing, or is the same in each of them.
pub open spec fn at_peace<R: Row>(
    rows: Seq<&R>,
    padding: nat,
    m: TableModel,
    width: nat,
    palette: PaletteModel,
) -> bool {
    forall|i: int, j: int, s: int|
        0 <= i < j < rows.len() && (#[trigger] rows[i]).row_id() == (#[trigger] rows[j]).row_id()
            && 0 <= s < R::shape().subs.len() && shown(m.row(rows[i].row_id()), s) ==> (
        #[trigger] R::shape().subs[s]) is None || same_section(
            rows[i],
            rows[j],
            s,
            (width - 2 * (padding + 1)) as nat,
            palette,
        )
}

/// A row that can be seen leaves its memory as it is when it is shown again.
spec fn settled<R: Row>(f: FrameModel, row: &R, r: RowModel, width: nat) -> bool {
    forall|s: int|
        0 <= s < R::section_models().len() && #[trigger] shown(r, s) ==> (row.section_content(
            s,
            r.sub_table_states[s],
            (width - 2 * (f.padding + 1)) as nat,
            f.palette,
        ) matches Some((_, sub)) && sub == r.sub_table_states[s])
}

/// Sections that were shown show the same again, from what they remember.
proof fn lemma_sections_settle<R: Row>(
    f: FrameModel,
    row: &R,
    m: RowModel,
    width: nat,
    n: nat,
    again: RowModel,
)
    requires
        state::row_fits(m, R::shape()),
        n <= R::section_models().len(),
        table::sections_upto(f, row, m, width, n) is Some,
    ensures
        ({
            let (t, after) = table::sections_upto(f, row, m, width, n)->0;
            &&& after == (RowModel { sub_table_states: after.sub_table_states, ..m })
            &&& state::row_fits(after, R::shape())
            &&& after.sub_table_states.len() == m.sub_table_states.len()
            &&& forall|i: int|
                n <= i < m.sub_table_states.len() ==> #[trigger] after.sub_table_states[i]
                    == m.sub_table_states[i]
            &&& again.show_sections == m.show_sections && again.marked == m.marked
                && again.sub_table_states.len() == m.sub_table_states.len() && (forall|i: int|
                0 <= i < n ==> #[trigger] again.sub_table_states[i] == after.sub_table_states[i])
                ==> table::sections_upto(f, row, again, width, n) == Some((t, again))
        }),
    decreases n,
{
    R::law_shape();
    state::lemma_subs_fit(m.sub_table_states, R::shape().subs);
    if n > 0 {
        let k = n - 1;
        lemma_sections_settle(f, row, m, width, k as nat, again);
        let (before, mid) = table::sections_upto(f, row, m, width, k as nat)->0;
        let (t, after) = table::sections_upto(f, row, m, width, n)->0;
        if m.show_sections[k] {
            let inner = (width - 2 * (f.padding + 1)) as nat;
            let old_sub = m.sub_table_states[k];
            assert(mid.sub_table_states[k] == old_sub);
            assert(state::sub_fits(old_sub, R::shape().subs[k]));
            row.law_content_settles(k, old_sub, inner, f.palette);
            let (content, sub) = row.section_content(k, old_sub, inner, f.palette)->0;
            state::lemma_sub_update_fits(mid, k, sub, R::shape());
            if again.sub_table_states.len() == m.sub_table_states.len()
                && again.sub_table_states[k] == sub {
                assert(again.sub_table_states.update(k, sub) =~= again.sub_table_states);
            }
            assert(after.sub_table_states =~= mid.sub_table_states.update(k, sub));
        }
        if forall|i: int|
            0 <= i < n ==> #[trigger] again.sub_table_states[i] == after.sub_table_states[i] {
            assert forall|i: int| 0 <= i < k implies #[trigger] again.sub_table_states[i]
                == mid.sub_table_states[i] by {
                assert(after.sub_table_states[i] == mid.sub_table_states[i]);
            }
        }
    }
}

/// A row whose sections were all shown is settled.
proof fn lemma_settled<R: Row>(f: FrameModel, row: &R, m: RowModel, width: nat, n: nat)
    requires
        state::row_fits(m, R::shape()),
        n <= R::section_models().len(),
        table::sections_upto(f, row, m, width, n) is Some,
    ensures
        ({
            let (_, after) = table::sections_upto(f, row, m, width, n)->0;
            forall|s: int|
                0 <= s < n && #[trigger] shown(after, s) ==> (row.section_content(
                    s,
                    after.sub_table_states[s],
                    (width - 2 * (f.padding + 1)) as nat,
                    f.palette,
                ) matches Some((_, sub)) && sub == after.sub_table_states[s])
        }),
    decreases n,
{
    R::law_shape();
    state::lemma_subs_fit(m.sub_table_states, R::shape().subs);
    if n > 0 {
        let k = n - 1;
        lemma_sections_settle(f, row, m, width, k as nat, m);
        lemma_settled(f, row, m, width, k as nat);
        let (_, mid) = table::sections_upto(f, row, m, width, k as nat)->0;
        let (_, after) = table::sections_upto(f, row, m, width, n)->0;
        if m.show_sections[k] {
            assert(mid.sub_table_states[k] == m.sub_table_states[k]);
            assert(state::sub_fits(m.sub_table_states[k], R::shape().subs[k]));
            row.law_content_settles(
                k,
                m.sub_table_states[k],
                (width - 2 * (f.padding + 1)) as nat,
                f.palette,
            );
        }
        assert forall|s: int| 0 <= s < n && #[trigger] shown(after, s) implies (
        row.section_content(
            s,
            after.sub_table_states[s],
            (width - 2 * (f.padding + 1)) as nat,
            f.palette,
        ) matches Some((_, sub)) && sub == after.sub_table_states[s]) by {
            if s < k {
                assert(shown(mid, s));
                assert(after.sub_table_states[s] == mid.sub_table_states[s]);
            }
        }
    }
}

/// Showing the sections of a row leaves its memory as it is where each section
/// that can be seen does.
proof fn lemma_sections_still<R: Row>(f: FrameModel, row: &R, m: RowModel, width: nat, n: nat)
    requires
        n <= R::section_models().len(),
        m.show_sub,
        m.sub_table_states.len() == R::section_models().len(),
        forall|s: int|
            0 <= s < n && #[trigger] shown(m, s) ==> (row.section_content(
                s,
                m.sub_table_states[s],
                (width - 2 * (f.padding + 1)) as nat,
                f.palette,
            ) matches Some((_, sub)) ==> sub == m.sub_table_states[s]),
    ensures
        table::sections_upto(f, row, m, width, n) matches Some((_, after)) ==> after == m,
    decreases n,
{
    if n > 0 {
        let k = n - 1;
        lemma_sections_still(f, row, m, width, k as nat);
        if m.show_sections[k] {
            assert(shown(m, k));
            assert(m.sub_table_states.update(k, m.sub_table_states[k]) =~= m.sub_table_states);
        }
    }
}

/// Another memory for a row leaves the other rows theirs.
proof fn lemma_other_rows(m: TableModel, h: RowHash, r: RowModel)
    requires
        assoc::distinct_keys(m.row_states),
        assoc::has_key(m.row_states, h),
    ensures
        state::same_but_rows(m, m.with_row(h, r)),
        m.with_row(h, r).row(h) == r,
        m.row(h) == r ==> m.with_row(h, r) == m,
        forall|g: RowHash|
            g != h && assoc::has_key(m.row_states, g) ==> #[trigger] m.with_row(h, r).row(g)
                == m.row(g),
{
    let after = m.with_row(h, r);
    let i = assoc::index_of(m.row_states, h);
    assert(assoc::key_at(m.row_states, i, h));
    assoc::lemma_same_keys(m.row_states, after.row_states);
    assert forall|g: RowHash| g != h && assoc::has_key(m.row_states, g) implies #[trigger] after.row(
        g,
    ) == m.row(g) by {
        assert(assoc::key_at(m.row_states, assoc::index_of(m.row_states, g), g));
        assert(assoc::index_of(m.row_states, g) == assoc::index_of(after.row_states, g));
    }
    if m.row(h) == r {
        assert(after.row_states =~= m.row_states);
    }
}

/// The memories of the first `n` rows are the same.
spec fn agree<R: Row>(a: TableModel, b: TableModel, rows: Seq<&R>, n: int) -> bool {
    forall|k: int|
        0 <= k < n ==> a.row((#[trigger] rows[k]).row_id()) == b.row(rows[k].row_id())
}

/// The first `n` rows leave their memories as they are when they are shown again.
spec fn all_settled<R: Row>(
    f: FrameModel,
    rows: Seq<&R>,
    m: TableModel,
    width: nat,
    n: int,
) -> bool {
    forall|k: int|
        0 <= k < n ==> settled(f, #[trigger] rows[k], m.row(rows[k].row_id()), width)
}

/// Each row has a memory.
spec fn remembered<R: Row>(rows: Seq<&R>, m: TableModel) -> bool {
    forall|k: int|
        0 <= k < rows.len() ==> assoc::has_key(m.row_states, (#[trigger] rows[k]).row_id())
}

/// What differs between two memories of a row is what its sections remember.
spec fn same_flags(a: RowModel, b: RowModel) -> bool {
    b == (RowModel { sub_table_states: b.sub_table_states, ..a })
}

/// Showing rows changes nothing but what their sections remember.
proof fn lemma_rows_kept<R: Row>(
    f: FrameModel,
    rows: Seq<&R>,
    columns: Seq<Seq<Seq<char>>>,
    m: TableModel,
    width: nat,
    n: nat,
)
    requires
        state::fits(m, R::shape()),
        n <= rows.len(),
        remembered(rows, m),
        table::rows_upto(f, rows, columns, m, width, n) is Some,
    ensures
        ({
            let (_, after) = table::rows_upto(f, rows, columns, m, width, n)->0;
            &&& state::same_but_rows(m, after)
            &&& state::fits(after, R::shape())
            &&& remembered(rows, after)
            &&& forall|k: int|
                0 <= k < rows.len() ==> same_flags(
                    m.row((#[trigger] rows[k]).row_id()),
                    after.row(rows[k].row_id()),
                )
        }),
    decreases n,
{
    if n > 0 {
        let k = n - 1;
        lemma_rows_kept(f, rows, columns, m, width, k as nat);
        let (_, mid) = table::rows_upto(f, rows, columns, m, width, k as nat)->0;
        let (_, after) = table::rows_upto(f, rows, columns, m, width, n)->0;
        let h = rows[k].row_id();
        let row = mid.row(h);
        let count = R::section_models().len();
        assert(assoc::has_key(mid.row_states, h));
        state::lemma_row_of_fits(mid, h, R::shape());
        if row.show_sub {
            let (_, next) = table::sections_upto(f, rows[k], row, width, count)->0;
            lemma_sections_settle(f, rows[k], row, width, count, next);
            state::lemma_with_row_fits(mid, h, next, R::shape());
            lemma_other_rows(mid, h, next);
            assert(after == mid.with_row(h, next));
            assoc::lemma_same_keys(mid.row_states, after.row_states);
            assert forall|i: int| 0 <= i < rows.len() implies same_flags(
                m.row((#[trigger] rows[i]).row_id()),
                after.row(rows[i].row_id()),
            ) by {
                let g = rows[i].row_id();
                assert(same_flags(m.row(g), mid.row(g)));
                assert(same_flags(m.row(h), mid.row(h)));
                if g != h {
                    assert(assoc::has_key(mid.row_states, g));
                    assert(after.row(g) == mid.row(g));
                }
            }
        }
    }
}

/// A row that shares its memory with a settled one, and is at peace with it,
/// leaves the memory as it is.
proof fn lemma_shared<R: Row>(
    f: FrameModel,
    rows: Seq<&R>,
    m: TableModel,
    r: RowModel,
    width: nat,
    j: int,
    k: int,
)
    requires
        0 <= j < k < rows.len(),
        rows[j].row_id() == rows[k].row_id(),
        at_peace(rows, f.padding, m, width, f.palette),
        same_flags(m.row(rows[j].row_id()), r),
        state::row_fits(r, R::shape()),
        settled(f, rows[j], r, width),
        r.show_sub,
    ensures
        table::sections_upto(f, rows[k], r, width, R::section_models().len()) matches Some(
            (_, after),
        ) ==> after == r,
{
    let inner = (width - 2 * (f.padding + 1)) as nat;
    R::law_shape();
    state::lemma_subs_fit(r.sub_table_states, R::shape().subs);
    assert forall|s: int| 0 <= s < R::section_models().len() && #[trigger] shown(r, s) implies (
    rows[k].section_content(s, r.sub_table_states[s], inner, f.palette) matches Some((_, sub))
        ==> sub == r.sub_table_states[s]) by {
        assert(state::sub_fits(r.sub_table_states[s], R::shape().subs[s]));
        assert(shown(m.row(rows[j].row_id()), s));
        if R::shape().subs[s] is None {
            rows[k].law_content_settles(s, r.sub_table_states[s], inner, f.palette);
        } else {
            assert(same_section(rows[j], rows[k], s, inner, f.palette));
            assert(rows[j].section_content(s, r.sub_table_states[s], inner, f.palette)
                == rows[k].section_content(s, r.sub_table_states[s], inner, f.palette));
        }
    }
    lemma_sections_still(f, rows[k], r, width, R::section_models().len());
}

/// Rows that were shown show the same again, from what they remember.
proof fn lemma_rows_settle<R: Row>(
    f: FrameModel,
    rows: Seq<&R>,
    columns: Seq<Seq<Seq<char>>>,
    m: TableModel,
    width: nat,
    n: nat,
    again: TableModel,
)
    requires
        state::fits(m, R::shape()),
        n <= rows.len(),
        remembered(rows, m),
        at_peace(rows, f.padding, m, width, f.palette),
        table::rows_upto(f, rows, columns, m, width, n) is Some,
    ensures
        ({
            let (t, after) = table::rows_upto(f, rows, columns, m, width, n)->0;
            &&& all_settled(f, rows, after, width, n as int)
            &&& state::same_but_rows(m, again) && agree(again, after, rows, n as int)
                ==> table::rows_upto(f, rows, columns, again, width, n) == Some((t, again))
        }),
    decreases n,
{
    if n > 0 {
        let k = n - 1;
        lemma_rows_settle(f, rows, columns, m, width, k as nat, again);
        lemma_rows_kept(f, rows, columns, m, width, k as nat);
        let (_, mid) = table::rows_upto(f, rows, columns, m, width, k as nat)->0;
        let (_, after) = table::rows_upto(f, rows, columns, m, width, n)->0;
        let h = rows[k].row_id();
        let row = mid.row(h);
        let count = R::section_models().len();
        assert(assoc::has_key(mid.row_states, h));
        state::lemma_row_of_fits(mid, h, R::shape());
        if row.show_sub {
            let (_, next) = table::sections_upto(f, rows[k], row, width, count)->0;
            lemma_sections_settle(f, rows[k], row, width, count, next);
            lemma_settled(f, rows[k], row, width, count);
            lemma_other_rows(mid, h, next);
            assert(after == mid.with_row(h, next));
        }
        assert forall|j: int| 0 <= j < k implies after.row((#[trigger] rows[j]).row_id())
            == mid.row(rows[j].row_id()) by {
            let g = rows[j].row_id();
            assert(assoc::has_key(mid.row_states, g));
            assert(settled(f, rows[j], mid.row(g), width));
            assert(same_flags(m.row(g), mid.row(g)));
            if row.show_sub && g == h {
                lemma_shared(f, rows, m, row, width, j, k);
            }
        }
        assert(all_settled(f, rows, after, width, n as int)) by {
            assert forall|j: int| 0 <= j < n implies settled(
                f,
                #[trigger] rows[j],
                after.row(rows[j].row_id()),
                width,
            ) by {
                if j < k {
                    assert(settled(f, rows[j], mid.row(rows[j].row_id()), width));
                }
            }
        }
        if state::same_but_rows(m, again) && agree(again, after, rows, n as int) {
            assoc::lemma_same_keys(m.row_states, again.row_states);
            assert(agree(again, mid, rows, k)) by {
                assert forall|j: int| 0 <= j < k implies again.row((#[trigger] rows[j]).row_id())
                    == mid.row(rows[j].row_id()) by {
                    assert(again.row(rows[j].row_id()) == after.row(rows[j].row_id()));
                }
            }
            assert(again.row(rows[k].row_id()) == after.row(rows[k].row_id()));
            lemma_other_rows(again, h, again.row(h));
        }
    }
}

/// A table that is shown and then shown again, with the same rows and in the
/// same width, shows the same, and its memory stays as it is. Rows that are known
/// by one hash share their memory: of these, a table that can be seen within them
/// must be the same in each. Once it was shown, a table's rows stand in its memory
/// in order, and a row is selected exactly where there are rows.
pub proof fn law_render_twice<R: Row>(
    rows: Seq<&R>,
    padding: nat,
    m: TableModel,
    width: nat,
    palette: PaletteModel,
)
    requires
        state::fits(m, R::shape()),
    ensures
        table::rendered(rows, padding, m, width, palette) matches Some((t, after)) ==> {
            &&& state::fits(after, R::shape())
            &&& after.ordered_row_hashes == table::ids_of(rows)
            &&& after.selected_row is None <==> rows.len() == 0
            &&& at_peace(rows, padding, m.reconcile(table::ids_of(rows)), width, palette)
                ==> table::rendered(rows, padding, after, width, palette) == Some((t, after))
        },
{
    if let Some((t, after)) = table::rendered(rows, padding, m, width, palette) {
        let ids = table::ids_of(rows);
        let first = m.reconcile(ids);
        let show_total = m.show_total && table::some_total::<R>();
        let l = table::layout::layout_of(rows, padding, width, show_total)->0;
        let f = FrameModel {
            padding,
            focused: m.prev_focused != Some(false) && m.focused_section is None,
            widths: l.widths,
            columns: R::column_models(),
            palette,
        };
        state::law_reconcile_fits(m, ids, R::shape());
        assert forall|k: int| 0 <= k < rows.len() implies assoc::has_key(
            first.row_states,
            (#[trigger] rows[k]).row_id(),
        ) by {
            assert(first.ordered_row_hashes[k] == rows[k].row_id());
        }
        lemma_rows_kept(f, rows, l.columns, first, width, rows.len());
        state::law_reconcile_settles(m, ids, after, R::shape());
        if at_peace(rows, padding, first, width, palette) {
            lemma_rows_settle(f, rows, l.columns, first, width, rows.len(), after);
        }
    }
}

/// Where rows that are known by one hash are closed, or show no table, a table
/// that is shown again shows the same, and remembers the same.
pub proof fn law_render_twice_apart<R: Row>(
    rows: Seq<&R>,
    padding: nat,
    m: TableModel,
    width: nat,
    palette: PaletteModel,
)
    requires
        state::fits(m, R::shape()),
        ({
            let ids = table::ids_of(rows);
            let first = m.reconcile(ids);
            forall|i: int, j: int, s: int|
                0 <= i < j < ids.len() && #[trigger] ids[i] == #[trigger] ids[j] && first.row(
                    ids[i],
                ).show_sub && 0 <= s < R::shape().subs.len() && first.row(ids[i]).show_sections[s]
                    ==> (#[trigger] R::shape().subs[s]) is None
        }),
    ensures
        table::rendered(rows, padding, m, width, palette) matches Some((t, after))
            ==> table::rendered(rows, padding, after, width, palette) == Some((t, after)),
{
    let ids = table::ids_of(rows);
    let first = m.reconcile(ids);
    assert forall|i: int, j: int, s: int|
        0 <= i < j < rows.len() && (#[trigger] rows[i]).row_id() == (#[trigger] rows[j]).row_id()
            && 0 <= s < R::shape().subs.len() && shown(first.row(rows[i].row_id()), s) implies (
    #[trigger] R::shape().subs[s]) is None || same_section(
        rows[i],
        rows[j],
        s,
        (width - 2 * (padding + 1)) as nat,
        palette,
    ) by {
        assert(ids[i] == rows[i].row_id() && ids[j] == rows[j].row_id());
    }
    law_render_twice(rows, padding, m, width, palette);
}

/// The lines of the first `n` rows, where all are closed: one line for each, the
/// selected one in green while the table has the focus, and a mark where the row
/// has one.
pub open spec fn closed_lines<R: Row>(
    f: FrameModel,
    rows: Seq<&R>,
    columns: Seq<Seq<Seq<char>>>,
    m: TableModel,
    n: int,
) -> Seq<char>
    decreases n,
{
    if n <= 0 {
        Seq::empty()
    } else {
        let h = rows[n - 1].row_id();
        let color = if f.focused && m.selected_row == Some(h) {
            Color::Green
        } else {
            Color::White
        };
        closed_lines(f, rows, columns, m, n - 1) + f.line(
            Seq::new(columns.len(), |c: int| columns[c][n]),
            color,
            m.row(h).marked,
        )
    }
}

/// A table whose rows are all closed is its head, a line for each row in the
/// order of the rows, and its foot; and it remembers nothing new.
pub proof fn law_closed_table<R: Row>(
    rows: Seq<&R>,
    padding: nat,
    m: TableModel,
    width: nat,
    palette: PaletteModel,
    l: LayoutModel,
)
    requires
        table::layout::layout_of(rows, padding, width, m.show_total && table::some_total::<R>())
            == Some(l),
        forall|k: int|
            0 <= k < rows.len() ==> !m.reconcile(table::ids_of(rows)).row(
                (#[trigger] rows[k]).row_id(),
            ).show_sub,
    ensures
        ({
            let first = m.reconcile(table::ids_of(rows));
            let f = FrameModel {
                padding,
                focused: m.prev_focused != Some(false) && m.focused_section is None,
                widths: l.widths,
                columns: R::column_models(),
                palette,
            };
            table::rendered(rows, padding, m, width, palette) == Some(
                (
                    table::head_of::<R>(f) + closed_lines(
                        f,
                        rows,
                        l.columns,
                        first,
                        rows.len() as int,
                    ) + table::foot_of(
                        f,
                        rows,
                        l.columns,
                        first,
                        m.show_total && table::some_total::<R>(),
                    ),
                    first,
                ),
            )
        }),
{
    let first = m.reconcile(table::ids_of(rows));
    let f = FrameModel {
        padding,
        focused: m.prev_focused != Some(false) && m.focused_section is None,
        widths: l.widths,
        columns: R::column_models(),
        palette,
    };
    lemma_closed(f, rows, l.columns, first, width, rows.len());
}

proof fn lemma_closed<R: Row>(
    f: FrameModel,
    rows: Seq<&R>,
    columns: Seq<Seq<Seq<char>>>,
    m: TableModel,
    width: nat,
    n: nat,
)
    requires
        n <= rows.len(),
        forall|k: int| 0 <= k < rows.len() ==> !m.row((#[trigger] rows[k]).row_id()).show_sub,
    ensures
        table::rows_upto(f, rows, columns, m, width, n) == Some(
            (closed_lines(f, rows, columns, m, n as int), m),
        ),
    decreases n,
{
    if n > 0 {
        lemma_closed(f, rows, columns, m, width, (n - 1) as nat);
        assert(!m.row(rows[n - 1].row_id()).show_sub);
        assert(table::cells_at(columns, n as int) =~= Seq::new(
            columns.len(),
            |c: int| columns[c][n as int],
        ));
    }
}

} // verus!
