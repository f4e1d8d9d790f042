//! What may be expected of a table's keys: where the selection goes, and that a
//! key touches nothing but what it is for.

use crate::assoc;
use crate::table::state;
use crate::table::state::{RowHash, RowModel, Shape, TableEvent, TableModel};
use vstd::prelude::*;

verus! {

/// Row `i` is selected, and no other row is known by the same hash.
pub open spec fn selected_at(m: TableModel, i: int) -> bool {
    &&& 0 <= i < m.ordered_row_hashes.len()
    &&& m.selected_row == Some(m.ordered_row_hashes[i])
    &&& m.ordered_row_hashes.no_duplicates()
}

/// Down goes to the next row and up to the one before, as far as there are any;
/// first goes to the first and last to the last. Nothing else changes.
pub proof fn law_moves(m: TableModel, nested: bool, i: int)
    requires
        m.focused_section is None,
        selected_at(m, i),
    ensures
        ({
            let n = m.ordered_row_hashes.len();
            let goes = |event: TableEvent, to: int|
                state::handled(m, event, nested) == (
                    TableModel { selected_row: Some(m.ordered_row_hashes[to]), ..m },
                    false,
                );
            &&& goes(
                TableEvent::Down,
                if i + 1 < n {
                    i + 1
                } else {
                    i
                },
            )
            &&& goes(
                TableEvent::Up,
                if i > 0 {
                    i - 1
                } else {
                    i
                },
            )
            &&& goes(TableEvent::First, 0)
            &&& goes(TableEvent::Last, n - 1)
        }),
{
    lemma_place(m.ordered_row_hashes, m.ordered_row_hashes[i], i, 0);
    assert(m =~= TableModel { focused_section: None, ..m });
}

proof fn lemma_place<T>(s: Seq<T>, x: T, i: int, from: int)
    requires
        0 <= from <= i < s.len(),
        s[i] == x,
        forall|j: int| 0 <= j < i ==> #[trigger] s[j] != x,
    ensures
        state::place_of(s, x, from) == Some(i),
    decreases i - from,
{
    if from < i {
        assert(s[from] != x);
        lemma_place(s, x, i, from + 1);
    }
}

proof fn lemma_no_place<T>(s: Seq<T>, x: T, from: int)
    requires
        0 <= from <= s.len(),
        forall|j: int| from <= j < s.len() ==> #[trigger] s[j] != x,
    ensures
        state::place_of(s, x, from) is None,
    decreases s.len() - from,
{
    if from < s.len() {
        assert(s[from] != x);
        lemma_no_place(s, x, from + 1);
    }
}

proof fn lemma_row(m: TableModel, h: RowHash, r: RowModel, shape: Shape, g: RowHash)
    requires
        state::fits(m, shape),
        assoc::has_key(m.row_states, h),
        assoc::has_key(m.row_states, g),
    ensures
        m.with_row(h, r).row(g) == if g == h {
            r
        } else {
            m.row(g)
        },
        m.with_row(h, r).ordered_row_hashes == m.ordered_row_hashes,
{
    let after = m.with_row(h, r);
    let i = assoc::index_of(m.row_states, h);
    let j = assoc::index_of(m.row_states, g);
    assert(assoc::key_at(m.row_states, i, h));
    assert(assoc::key_at(m.row_states, j, g));
    assoc::lemma_same_keys(m.row_states, after.row_states);
}

/// Marking a row, opening it and showing a section of it touches that row alone,
/// and nothing else of it: a mark is turned over, so is whether the row is open,
/// and a section is turned over in a row that is then open. A key that belongs to
/// no section does nothing.
pub proof fn law_row_keys(
    m: TableModel,
    nested: bool,
    shape: Shape,
    g: RowHash,
    key: char,
    k: int,
)
    requires
        state::fits(m, shape),
        m.focused_section is None,
        m.selected_row is Some,
        assoc::has_key(m.row_states, g),
        0 <= k <= m.sub_keys.len(),
        k < m.sub_keys.len() ==> m.sub_keys[k] == key,
        forall|j: int| 0 <= j < k ==> #[trigger] m.sub_keys[j] != key,
    ensures
        ({
            let h = m.selected_row->0;
            let r = m.row(g);
            let after = |event: TableEvent| state::handled(m, event, nested).0;
            let (mark, open, section) = (
                after(TableEvent::Mark),
                after(TableEvent::ToggleSub),
                after(TableEvent::ToggleSection(key)),
            );
            &&& mark.row(g) == RowModel {
                marked: if g == h {
                    !r.marked
                } else {
                    r.marked
                },
                ..r
            }
            &&& open.row(g) == RowModel {
                show_sub: if g == h {
                    !r.show_sub
                } else {
                    r.show_sub
                },
                ..r
            }
            &&& mark.selected_row == Some(h) && open.selected_row == Some(h)
                && section.selected_row == Some(h)
            &&& k == m.sub_keys.len() ==> section == m
            &&& k < m.sub_keys.len() && g != h ==> section.row(g) == r
            &&& k < m.sub_keys.len() && g == h ==> {
                &&& section.row(g).show_sub
                &&& section.row(g).marked == r.marked
                &&& section.row(g).sub_table_states == r.sub_table_states
                &&& section.row(g).show_sections.len() == r.show_sections.len()
                &&& forall|j: int|
                    0 <= j < r.show_sections.len() ==> (
                    #[trigger] section.row(g).show_sections[j]) == if j == k {
                        !r.show_sections[j]
                    } else {
                        r.show_sections[j]
                    }
            }
        }),
{
    let h = m.selected_row->0;
    let r = m.row(h);
    assert(m =~= TableModel { focused_section: None, ..m });
    lemma_row(m, h, r.toggle_mark(), shape, g);
    lemma_row(m, h, r.toggle_sub(), shape, g);
    if k < m.sub_keys.len() {
        lemma_place(m.sub_keys, key, k, 0);
        lemma_row(m, h, r.toggle_section(k), shape, g);
        state::lemma_row_of_fits(m, h, shape);
    } else {
        lemma_no_place(m.sub_keys, key, 0);
    }
}

/// The totals are turned on and off, and nothing else changes. Marks are taken
/// off every row, and nothing else changes.
pub proof fn law_table_keys(m: TableModel, nested: bool, i: int)
    requires
        m.focused_section is None,
        0 <= i < m.row_states.len(),
    ensures
        state::handled(m, TableEvent::ToggleTotal, nested).0 == (TableModel {
            show_total: !m.show_total,
            ..m
        }),
        ({
            let after = state::handled(m, TableEvent::Unmark, nested).0;
            &&& after == (TableModel { row_states: after.row_states, ..m })
            &&& after.row_states.len() == m.row_states.len()
            &&& after.row_states[i] == (
                m.row_states[i].0,
                RowModel { marked: false, ..m.row_states[i].1 },
            )
        }),
{
    assert(m =~= TableModel { focused_section: None, ..m });
}

/// While a table within a row has the focus, a key is for that table: it does
/// there what it does in a table, and touches nothing of the table around it.
pub proof fn law_focused_keys(
    m: TableModel,
    event: TableEvent,
    shape: Shape,
    k: nat,
    sub: TableModel,
    g: RowHash,
)
    requires
        state::fits(m, shape),
        m.focused_section == Some(k),
        m.selected_row is Some,
        m.row(m.selected_row->0).sub_table_states[k as int] == Some(sub),
        event != TableEvent::UnfocusSection,
        sub.focused_section is None,
        assoc::has_key(m.row_states, g),
    ensures
        ({
            let h = m.selected_row->0;
            let after = state::handled(m, event, false).0;
            let inner = state::handled(sub, event, true).0;
            &&& after.focused_section == Some(k)
            &&& after.selected_row == m.selected_row
            &&& after.show_total == m.show_total
            &&& after.ordered_row_hashes == m.ordered_row_hashes
            &&& g != h ==> after.row(g) == m.row(g)
            &&& after.row(h) == RowModel {
                sub_table_states: m.row(h).sub_table_states.update(k as int, Some(inner)),
                ..m.row(h)
            }
        }),
{
    reveal_with_fuel(state::handled, 2);
    let h = m.selected_row->0;
    state::lemma_row_of_fits(m, h, shape);
    assert(m.focused_sub() == Some(sub));
    let inner = state::handled(sub, event, true).0;
    let r = RowModel {
        sub_table_states: m.row(h).sub_table_states.update(k as int, Some(inner)),
        ..m.row(h)
    };
    lemma_row(m, h, r, shape, g);
    lemma_row(m, h, r, shape, h);
    assert(!state::handled(sub, event, true).1);
}

/// A table with other rows remembers what it did of the rows that stay, and of
/// new ones what a new row remembers. The selected row stays selected if it is
/// still there, and else it is the first one.
pub proof fn law_rows_remembered(m: TableModel, hashes: Seq<RowHash>, shape: Shape, h: RowHash)
    requires
        state::fits(m, shape),
        hashes.contains(h),
    ensures
        ({
            let after = m.reconcile(hashes);
            &&& after.ordered_row_hashes == hashes
            &&& assoc::has_key(after.row_states, h)
            &&& assoc::has_key(m.row_states, h) ==> after.row(h) == m.row(h)
            &&& !assoc::has_key(m.row_states, h) ==> after.row(h) == m.default_row_state
            &&& m.selected_row == Some(h) ==> after.selected_row == Some(h)
            &&& (m.selected_row is None || !hashes.contains(m.selected_row->0))
                ==> after.selected_row == Some(hashes[0])
            &&& after.show_total == m.show_total
            &&& after.default_row_state == m.default_row_state
        }),
{
    let keep = state::kept(m.row_states, hashes);
    state::law_reconcile_fits(m, hashes, shape);
    let after = m.reconcile(hashes);
    let j = choose|j: int| 0 <= j < hashes.len() && hashes[j] == h;
    assert(assoc::has_key(after.row_states, after.ordered_row_hashes[j]));
    lemma_kept(m.row_states, hashes, h);
    lemma_filled(keep, hashes, m.default_row_state, h);
    let i = assoc::index_of(after.row_states, h);
    assert(assoc::key_at(after.row_states, i, h));
    if assoc::has_key(m.row_states, h) {
        let x = assoc::index_of(m.row_states, h);
        assert(assoc::key_at(m.row_states, x, h));
        assert(keep.contains(m.row_states[x]));
        let y = choose|y: int| 0 <= y < keep.len() && keep[y] == m.row_states[x];
        assert(assoc::key_at(keep, y, h));
        assert(after.row_states[y] == keep[y]);
        assert(assoc::key_at(after.row_states, y, h));
        assoc::lemma_index_unique(after.row_states, y, h);
    } else {
        assert(after.row_states[i] == (h, m.default_row_state));
    }
}

proof fn lemma_kept(s: Seq<(RowHash, RowModel)>, hashes: Seq<RowHash>, h: RowHash)
    ensures
        forall|i: int|
            0 <= i < s.len() && hashes.contains((#[trigger] s[i]).0) ==> state::kept(
                s,
                hashes,
            ).contains(s[i]),
        assoc::has_key(state::kept(s, hashes), h) ==> assoc::has_key(s, h),
    decreases s.len(),
{
    if s.len() > 0 {
        let rest = s.drop_last();
        let before = state::kept(rest, hashes);
        let after = state::kept(s, hashes);
        lemma_kept(rest, hashes, h);
        assert forall|i: int| 0 <= i < s.len() && hashes.contains(
            (#[trigger] s[i]).0,
        ) implies after.contains(s[i]) by {
            if i < rest.len() {
                assert(rest[i] == s[i]);
                assert(before.contains(rest[i]));
                let j = choose|j: int| 0 <= j < before.len() && before[j] == s[i];
                assert(after[j] == s[i]);
            } else {
                assert(after[before.len() as int] == s[i]);
            }
        }
        if assoc::has_key(after, h) {
            let i = assoc::index_of(after, h);
            assert(assoc::key_at(after, i, h));
            if i < before.len() {
                assert(assoc::key_at(before, i, h));
                let j = assoc::index_of(rest, h);
                assert(assoc::key_at(rest, j, h));
                assert(assoc::key_at(s, j, h));
            } else {
                assert(assoc::key_at(s, s.len() - 1, h));
            }
        }
    }
}

proof fn lemma_filled(
    s: Seq<(RowHash, RowModel)>,
    hashes: Seq<RowHash>,
    new: RowModel,
    h: RowHash,
)
    ensures
        ({
            let after = state::filled(s, hashes, new);
            &&& after.len() >= s.len()
            &&& forall|i: int| 0 <= i < s.len() ==> #[trigger] after[i] == s[i]
            &&& forall|i: int| s.len() <= i < after.len() ==> (#[trigger] after[i]).1 == new
            &&& !assoc::has_key(s, h) ==> forall|i: int|
                0 <= i < after.len() && (#[trigger] after[i]).0 == h ==> after[i].1 == new
        }),
    decreases hashes.len(),
{
    if hashes.len() > 0 {
        lemma_filled(s, hashes.drop_last(), new, h);
    }
    let after = state::filled(s, hashes, new);
    if !assoc::has_key(s, h) {
        assert forall|i: int| 0 <= i < after.len() && (#[trigger] after[i]).0 == h implies after[i].1
            == new by {
            if i < s.len() {
                assert(assoc::key_at(s, i, h));
            }
        }
    }
}

} // verus!
