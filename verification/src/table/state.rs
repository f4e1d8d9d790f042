//! What a table remembers between two renderings: the selected row, the marked
//! rows, and which sections of which rows are open.

use crate::assoc;
use vstd::prelude::*;

verus! {

/// What a row is known by.
pub type RowHash = u64;

/// The order of a column.
#[derive(Clone, Copy, Debug, PartialEq, Eq, Structural)]
pub enum Sort {
    Unsorted,
    Increasing,
    Decreasing,
}

impl Default for Sort {
    fn default() -> (r: Sort)
        ensures
            r == Sort::Unsorted,
    {
        Sort::Unsorted
    }
}

/// What a table can be told.
#[derive(Clone, Copy, Debug, PartialEq, Eq, Structural)]
pub enum TableEvent {
    Up,
    Down,
    First,
    Last,
    Mark,
    Unmark,
    ToggleTotal,
    ToggleSub,
    ToggleSection(char),
    FocusSection(char),
    UnfocusSection,
}

/// A table's memory. A table within another knows whether it has the focus.
#[derive(Debug)]
pub struct TableState {
    pub prev_focused: Option<bool>,
    pub focused_section: Option<usize>,
    pub selected_row: Option<RowHash>,
    pub row_states: Vec<(RowHash, RowState)>,
    pub column_sorts: Vec<Sort>,
    pub show_total: bool,
    pub sub_keys: Vec<char>,
    pub default_row_state: RowState,
    pub ordered_row_hashes: Vec<RowHash>,
}

/// A row's memory.
#[derive(Debug)]
pub struct RowState {
    pub marked: bool,
    pub show_sub: bool,
    pub show_sections: Vec<bool>,
    pub sub_table_states: Vec<Option<TableState>>,
}

/// The contents of a table's memory.
pub struct TableModel {
    pub prev_focused: Option<bool>,
    pub focused_section: Option<nat>,
    pub selected_row: Option<RowHash>,
    pub row_states: Seq<(RowHash, RowModel)>,
    pub column_sorts: Seq<Sort>,
    pub show_total: bool,
    pub sub_keys: Seq<char>,
    pub default_row_state: RowModel,
    pub ordered_row_hashes: Seq<RowHash>,
}

/// The contents of a row's memory.
pub struct RowModel {
    pub marked: bool,
    pub show_sub: bool,
    pub show_sections: Seq<bool>,
    pub sub_table_states: Seq<Option<TableModel>>,
}

impl TableState {
    /// The memory's contents.
    pub open spec fn model(self) -> TableModel
        decreases self,
    {
        TableModel {
            prev_focused: self.prev_focused,
            focused_section: match self.focused_section {
                Some(i) => Some(i as nat),
                None => None,
            },
            selected_row: self.selected_row,
            row_states: row_models(self.row_states@),
            column_sorts: self.column_sorts@,
            show_total: self.show_total,
            sub_keys: self.sub_keys@,
            default_row_state: self.default_row_state.model(),
            ordered_row_hashes: self.ordered_row_hashes@,
        }
    }
}

impl RowState {
    /// The memory's contents.
    pub open spec fn model(self) -> RowModel
        decreases self,
    {
        RowModel {
            marked: self.marked,
            show_sub: self.show_sub,
            show_sections: self.show_sections@,
            sub_table_states: sub_models(self.sub_table_states@),
        }
    }
}

/// The contents of several rows' memories.
pub open spec fn row_models(s: Seq<(RowHash, RowState)>) -> Seq<(RowHash, RowModel)>
    decreases s,
{
    if s.len() == 0 {
        Seq::empty()
    } else {
        row_models(s.drop_last()).push((s.last().0, s.last().1.model()))
    }
}

/// The contents of the memories of several sections.
pub open spec fn sub_models(s: Seq<Option<TableState>>) -> Seq<Option<TableModel>>
    decreases s,
{
    if s.len() == 0 {
        Seq::empty()
    } else {
        sub_models(s.drop_last()).push(
            match s.last() {
                Some(t) => Some(t.model()),
                None => None,
            },
        )
    }
}

/// The contents of a section's memory.
pub open spec fn sub_model(s: Option<TableState>) -> Option<TableModel> {
    match s {
        Some(t) => Some(t.model()),
        None => None,
    }
}

/// The contents of each of several rows' memories.
pub proof fn lemma_row_models(s: Seq<(RowHash, RowState)>)
    ensures
        row_models(s).len() == s.len(),
        forall|i: int|
            0 <= i < s.len() ==> #[trigger] row_models(s)[i] == (s[i].0, s[i].1.model()),
    decreases s.len(),
{
    if s.len() > 0 {
        lemma_row_models(s.drop_last());
    }
}

/// The contents of each of several sections' memories.
pub proof fn lemma_sub_models(s: Seq<Option<TableState>>)
    ensures
        sub_models(s).len() == s.len(),
        forall|i: int| 0 <= i < s.len() ==> #[trigger] sub_models(s)[i] == sub_model(s[i]),
    decreases s.len(),
{
    if s.len() > 0 {
        lemma_sub_models(s.drop_last());
    }
}

/// What sections a table's rows have: their keys, and the tables that they hold.
pub struct Shape {
    pub keys: Seq<char>,
    pub subs: Seq<Option<Shape>>,
}

/// A table's memory is in order and has the shape of the table.
pub open spec fn fits(m: TableModel, shape: Shape) -> bool
    decreases m,
{
    &&& m.sub_keys == shape.keys
    &&& shape.keys.len() == shape.subs.len()
    &&& row_fits(m.default_row_state, shape)
    &&& rows_fit(m.row_states, shape)
    &&& assoc::distinct_keys(m.row_states)
    &&& m.selected_row matches Some(h) ==> assoc::has_key(m.row_states, h)
    &&& forall|j: int|
        0 <= j < m.ordered_row_hashes.len() ==> assoc::has_key(
            m.row_states,
            #[trigger] m.ordered_row_hashes[j],
        )
    &&& m.focused_section matches Some(i) ==> i < shape.keys.len()
}

/// A row's memory has the shape of the table.
pub open spec fn row_fits(r: RowModel, shape: Shape) -> bool
    decreases r,
{
    &&& r.show_sections.len() == shape.subs.len()
    &&& subs_fit(r.sub_table_states, shape.subs)
}

/// Several rows' memories have the shape of the table.
pub open spec fn rows_fit(s: Seq<(RowHash, RowModel)>, shape: Shape) -> bool
    decreases s,
{
    s.len() == 0 || (rows_fit(s.drop_last(), shape) && row_fits(s.last().1, shape))
}

/// The memories of sections have the shapes of the sections.
pub open spec fn subs_fit(s: Seq<Option<TableModel>>, shapes: Seq<Option<Shape>>) -> bool
    decreases s,
{
    &&& s.len() == shapes.len()
    &&& s.len() == 0 || (subs_fit(s.drop_last(), shapes.drop_last()) && match s.last() {
        None => shapes.last() is None,
        Some(t) => shapes.last() is Some && fits(t, shapes.last()->0),
    })
}

/// The memory of a section has the shape of the section.
pub open spec fn sub_fits(s: Option<TableModel>, shape: Option<Shape>) -> bool {
    match s {
        None => shape is None,
        Some(t) => shape is Some && fits(t, shape->0),
    }
}

/// Memories fit where each of them does.
pub proof fn lemma_rows_fit(s: Seq<(RowHash, RowModel)>, shape: Shape)
    ensures
        rows_fit(s, shape) <==> forall|i: int|
            0 <= i < s.len() ==> row_fits((#[trigger] s[i]).1, shape),
    decreases s.len(),
{
    if s.len() > 0 {
        let rest = s.drop_last();
        lemma_rows_fit(rest, shape);
        assert(s.last() == s[s.len() - 1]);
        if rows_fit(s, shape) {
            assert forall|i: int| 0 <= i < s.len() implies row_fits((#[trigger] s[i]).1, shape) by {
                if i < rest.len() {
                    assert(rest[i] == s[i]);
                }
            }
        }
        if forall|i: int| 0 <= i < s.len() ==> row_fits((#[trigger] s[i]).1, shape) {
            assert forall|i: int| 0 <= i < rest.len() implies row_fits(
                (#[trigger] rest[i]).1,
                shape,
            ) by {
                assert(rest[i] == s[i]);
            }
        }
    }
}

/// Memories of sections fit where each of them does.
pub proof fn lemma_subs_fit(s: Seq<Option<TableModel>>, shapes: Seq<Option<Shape>>)
    ensures
        subs_fit(s, shapes) <==> s.len() == shapes.len() && forall|i: int|
            0 <= i < s.len() ==> sub_fits(#[trigger] s[i], shapes[i]),
    decreases s.len(),
{
    if s.len() > 0 && s.len() == shapes.len() {
        let rest = s.drop_last();
        let others = shapes.drop_last();
        lemma_subs_fit(rest, others);
        assert(s.last() == s[s.len() - 1]);
        assert(shapes.last() == shapes[s.len() - 1]);
        if subs_fit(s, shapes) {
            assert forall|i: int| 0 <= i < s.len() implies sub_fits(#[trigger] s[i], shapes[i]) by {
                if i < rest.len() {
                    assert(rest[i] == s[i]);
                    assert(others[i] == shapes[i]);
                }
            }
        }
        if forall|i: int| 0 <= i < s.len() ==> sub_fits(#[trigger] s[i], shapes[i]) {
            assert(sub_fits(s[s.len() - 1], shapes[s.len() - 1]));
            assert forall|i: int| 0 <= i < rest.len() implies sub_fits(
                #[trigger] rest[i],
                others[i],
            ) by {
                assert(rest[i] == s[i]);
            }
        }
    }
}

/// A table's memory is in order.
pub open spec fn sound(m: TableModel) -> bool {
    exists|shape: Shape| #[trigger] fits(m, shape)
}

/// The first place of a value in a list.
pub open spec fn place_of<T>(s: Seq<T>, x: T, i: int) -> Option<int>
    decreases s.len() - i,
{
    if i < 0 || i >= s.len() {
        None
    } else if s[i] == x {
        Some(i)
    } else {
        place_of(s, x, i + 1)
    }
}

impl RowModel {
    pub open spec fn toggle_mark(self) -> RowModel {
        RowModel { marked: !self.marked, ..self }
    }

    pub open spec fn toggle_sub(self) -> RowModel {
        RowModel { show_sub: !self.show_sub, ..self }
    }

    /// The row opened, with a section shown that was not, or the reverse.
    pub open spec fn toggle_section(self, i: int) -> RowModel {
        RowModel {
            show_sub: true,
            show_sections: self.show_sections.update(i, !self.show_sections[i]),
            ..self
        }
    }

    /// The row opened, with a section shown, whose table, if any, has the focus.
    pub open spec fn focus_section(self, i: int) -> RowModel {
        RowModel {
            show_sub: true,
            show_sections: self.show_sections.update(i, true),
            sub_table_states: self.sub_table_states.update(
                i,
                match self.sub_table_states[i] {
                    Some(t) => Some(TableModel { prev_focused: Some(true), ..t }),
                    None => None,
                },
            ),
            ..self
        }
    }
}

impl TableModel {
    /// The memory of the row known by `h`.
    pub open spec fn row(self, h: RowHash) -> RowModel {
        self.row_states[assoc::index_of(self.row_states, h)].1
    }

    /// Another memory for the row known by `h`, if there is such a row.
    pub open spec fn with_row(self, h: RowHash, r: RowModel) -> TableModel {
        if assoc::has_key(self.row_states, h) {
            TableModel {
                row_states: self.row_states.update(assoc::index_of(self.row_states, h), (h, r)),
                ..self
            }
        } else {
            self
        }
    }

    /// The row at `index`, or the last one, selected.
    pub open spec fn goto(self, index: int) -> TableModel {
        let n = self.ordered_row_hashes.len();
        TableModel {
            selected_row: if n == 0 {
                None
            } else if index < n {
                Some(self.ordered_row_hashes[index])
            } else {
                Some(self.ordered_row_hashes[n - 1])
            },
            ..self
        }
    }

    /// The row before or behind the selected one selected.
    pub open spec fn nav(self, down: bool) -> TableModel {
        match self.selected_row {
            None => self,
            Some(h) => match place_of(self.ordered_row_hashes, h, 0) {
                None => self,
                Some(i) => self.goto(
                    if down {
                        i + 1
                    } else if i > 0 {
                        i - 1
                    } else {
                        0
                    },
                ),
            },
        }
    }

    /// No row marked.
    pub open spec fn unmark(self) -> TableModel {
        TableModel {
            row_states: Seq::new(
                self.row_states.len(),
                |i: int| (self.row_states[i].0, RowModel { marked: false, ..self.row_states[i].1 }),
            ),
            ..self
        }
    }

    pub open spec fn toggle_section(self, key: char) -> TableModel {
        match place_of(self.sub_keys, key, 0) {
            Some(i) if self.selected_row is Some => self.with_row(
                self.selected_row->0,
                self.row(self.selected_row->0).toggle_section(i),
            ),
            _ => self,
        }
    }

    pub open spec fn focus_section(self, key: char) -> TableModel {
        match place_of(self.sub_keys, key, 0) {
            Some(i) if self.selected_row is Some => TableModel {
                focused_section: Some(i as nat),
                ..self.with_row(
                    self.selected_row->0,
                    self.row(self.selected_row->0).focus_section(i),
                )
            },
            _ => self,
        }
    }

    /// What an event does to the table itself, and whether the table that it is
    /// in takes the focus back.
    pub open spec fn apply(self, event: TableEvent, nested: bool) -> (TableModel, bool) {
        match event {
            TableEvent::Up => (self.nav(false), false),
            TableEvent::Down => (self.nav(true), false),
            TableEvent::First => (self.goto(0), false),
            TableEvent::Last => (self.goto(self.ordered_row_hashes.len() as int), false),
            TableEvent::Mark => (
                match self.selected_row {
                    Some(h) => self.with_row(h, self.row(h).toggle_mark()),
                    None => self,
                },
                false,
            ),
            TableEvent::Unmark => (self.unmark(), false),
            TableEvent::ToggleTotal => (
                TableModel { show_total: !self.show_total, ..self },
                false,
            ),
            TableEvent::ToggleSub => (
                match self.selected_row {
                    Some(h) => self.with_row(h, self.row(h).toggle_sub()),
                    None => self,
                },
                false,
            ),
            TableEvent::ToggleSection(key) => (self.toggle_section(key), false),
            TableEvent::FocusSection(key) => (self.focus_section(key), false),
            TableEvent::UnfocusSection => if nested {
                (TableModel { prev_focused: Some(false), ..self }, true)
            } else {
                (self, false)
            },
        }
    }

    /// The table within the selected row that has the focus, if any.
    pub open spec fn focused_sub(self) -> Option<TableModel> {
        match (self.focused_section, self.selected_row) {
            (Some(i), Some(h)) => if assoc::has_key(self.row_states, h) && i < self.row(
                h,
            ).sub_table_states.len() {
                self.row(h).sub_table_states[i as int]
            } else {
                None
            },
            _ => None,
        }
    }

    /// Another memory for the table that has the focus.
    pub open spec fn with_focused_sub(self, t: TableModel) -> TableModel {
        let h = self.selected_row->0;
        let r = self.row(h);
        self.with_row(
            h,
            RowModel {
                sub_table_states: r.sub_table_states.update(
                    self.focused_section->0 as int,
                    Some(t),
                ),
                ..r
            },
        )
    }
}

/// What an event does: it goes to the table that has the focus.
pub open spec fn handled(m: TableModel, event: TableEvent, nested: bool) -> (TableModel, bool)
    decreases m,
    via handled_decreases
{
    match m.focused_sub() {
        Some(sub) => {
            let (t, unfocus) = handled(sub, event, true);
            let next = m.with_focused_sub(t);
            (
                TableModel {
                    focused_section: if unfocus {
                        None
                    } else {
                        m.focused_section
                    },
                    ..next
                },
                false,
            )
        },
        None => (TableModel { focused_section: None, ..m }).apply(event, nested),
    }
}

#[via_fn]
proof fn handled_decreases(m: TableModel, event: TableEvent, nested: bool) {
    if m.focused_sub() is Some {
        let h = m.selected_row->0;
        let i = assoc::index_of(m.row_states, h);
        assert(assoc::key_at(m.row_states, i, h));
        let r = m.row_states[i].1;
        let k = m.focused_section->0 as int;
        assert(decreases_to!(m => m.row_states));
        assert(decreases_to!(m.row_states => m.row_states[i]));
        assert(decreases_to!(m.row_states[i] => m.row_states[i].1));
        assert(decreases_to!(r => r.sub_table_states));
        assert(decreases_to!(r.sub_table_states => r.sub_table_states[k]));
        assert(decreases_to!(r.sub_table_states[k] => r.sub_table_states[k]->0));
    }
}

/// The rows' memories that are among `hashes`.
pub open spec fn kept(s: Seq<(RowHash, RowModel)>, hashes: Seq<RowHash>) -> Seq<(RowHash, RowModel)>
    decreases s.len(),
{
    if s.len() == 0 {
        Seq::empty()
    } else {
        let before = kept(s.drop_last(), hashes);
        if hashes.contains(s.last().0) {
            before.push(s.last())
        } else {
            before
        }
    }
}

/// The rows' memories, with a new one for each of `hashes` that has none.
pub open spec fn filled(
    s: Seq<(RowHash, RowModel)>,
    hashes: Seq<RowHash>,
    new: RowModel,
) -> Seq<(RowHash, RowModel)>
    decreases hashes.len(),
{
    if hashes.len() == 0 {
        s
    } else {
        let before = filled(s, hashes.drop_last(), new);
        if assoc::has_key(before, hashes.last()) {
            before
        } else {
            before.push((hashes.last(), new))
        }
    }
}

impl TableModel {
    /// The memory for a table that now has other rows: the selected row stays
    /// selected if it is still there, else it is the first one.
    pub open spec fn reconcile(self, hashes: Seq<RowHash>) -> TableModel {
        TableModel {
            selected_row: match self.selected_row {
                Some(h) if hashes.contains(h) => Some(h),
                _ => if hashes.len() == 0 {
                    None
                } else {
                    Some(hashes[0])
                },
            },
            row_states: filled(kept(self.row_states, hashes), hashes, self.default_row_state),
            ordered_row_hashes: hashes,
            ..self
        }
    }
}

/// What is kept was there, in the same order and among the hashes.
proof fn lemma_kept(s: Seq<(RowHash, RowModel)>, hashes: Seq<RowHash>, shape: Shape)
    requires
        assoc::distinct_keys(s),
        rows_fit(s, shape),
    ensures
        assoc::distinct_keys(kept(s, hashes)),
        rows_fit(kept(s, hashes), shape),
        forall|h: RowHash|
            assoc::has_key(s, h) && hashes.contains(h) ==> #[trigger] assoc::has_key(
                kept(s, hashes),
                h,
            ),
        forall|i: int| 0 <= i < kept(s, hashes).len() ==> s.contains(#[trigger] kept(s, hashes)[i]),
    decreases s.len(),
{
    if s.len() > 0 {
        let rest = s.drop_last();
        let last = s.last();
        let before = kept(rest, hashes);
        let after = kept(s, hashes);
        lemma_kept(rest, hashes, shape);
        assert forall|i: int| 0 <= i < after.len() implies s.contains(#[trigger] after[i]) by {
            if i < before.len() {
                assert(rest.contains(before[i]));
                let j = choose|j: int| 0 <= j < rest.len() && rest[j] == before[i];
                assert(s[j] == after[i]);
            } else {
                assert(s[s.len() - 1] == after[i]);
            }
        }
        assert(assoc::distinct_keys(after)) by {
            assert forall|i: int, j: int| 0 <= i < j < after.len() implies (
            #[trigger] after[i]).0 != (#[trigger] after[j]).0 by {
                if j == before.len() {
                    assert(rest.contains(before[i]));
                    let k = choose|k: int| 0 <= k < rest.len() && rest[k] == before[i];
                    assert(s[k].0 != s[s.len() - 1].0);
                }
            }
        }
        if hashes.contains(last.0) {
            assert(after.drop_last() =~= before);
        }
        assert forall|h: RowHash|
            assoc::has_key(s, h) && hashes.contains(h) implies #[trigger] assoc::has_key(
            after,
            h,
        ) by {
            let i = assoc::index_of(s, h);
            assert(assoc::key_at(s, i, h));
            if i == s.len() - 1 {
                assert(assoc::key_at(after, before.len() as int, h));
            } else {
                assert(assoc::key_at(rest, i, h));
                let j = assoc::index_of(before, h);
                assert(assoc::has_key(before, h));
                assert(assoc::key_at(before, j, h));
                assert(assoc::key_at(after, j, h));
            }
        }
    }
}

/// Filling up keeps what was there and leaves no hash without a memory.
proof fn lemma_filled(
    s: Seq<(RowHash, RowModel)>,
    hashes: Seq<RowHash>,
    new: RowModel,
    shape: Shape,
)
    requires
        assoc::distinct_keys(s),
        rows_fit(s, shape),
        row_fits(new, shape),
    ensures
        assoc::distinct_keys(filled(s, hashes, new)),
        rows_fit(filled(s, hashes, new), shape),
        forall|h: RowHash|
            assoc::has_key(s, h) ==> #[trigger] assoc::has_key(filled(s, hashes, new), h),
        forall|j: int|
            0 <= j < hashes.len() ==> assoc::has_key(
                filled(s, hashes, new),
                #[trigger] hashes[j],
            ),
    decreases hashes.len(),
{
    if hashes.len() > 0 {
        let rest = hashes.drop_last();
        lemma_filled(s, rest, new, shape);
        let before = filled(s, rest, new);
        let after = filled(s, hashes, new);
        let h = hashes.last();
        if !assoc::has_key(before, h) {
            assert(after.drop_last() =~= before);
            assert forall|j: int| 0 <= j < before.len() implies (#[trigger] before[j]).0 != h by {
                assert(!assoc::key_at(before, j, h));
            }
            assert(assoc::key_at(after, before.len() as int, h));
        }
        assert forall|g: RowHash| assoc::has_key(before, g) implies #[trigger] assoc::has_key(
            after,
            g,
        ) by {
            let i = assoc::index_of(before, g);
            assert(assoc::key_at(before, i, g));
            assert(assoc::key_at(after, i, g));
        }
        assert forall|j: int| 0 <= j < hashes.len() implies assoc::has_key(
            after,
            #[trigger] hashes[j],
        ) by {
            if j < rest.len() {
                assert(rest[j] == hashes[j]);
            }
        }
    }
}

/// A memory that is reconciled with other rows stays in order.
pub proof fn law_reconcile_fits(m: TableModel, hashes: Seq<RowHash>, shape: Shape)
    requires
        fits(m, shape),
    ensures
        fits(m.reconcile(hashes), shape),
        m.reconcile(hashes).selected_row matches Some(h) ==> hashes.contains(h),
        m.reconcile(hashes).selected_row is None <==> hashes.len() == 0,
{
    lemma_kept(m.row_states, hashes, shape);
    lemma_filled(kept(m.row_states, hashes), hashes, m.default_row_state, shape);
    if hashes.len() > 0 {
        assert(hashes.contains(hashes[0]));
    }
    let after = m.reconcile(hashes);
    if let Some(h) = after.selected_row {
        let j = choose|j: int| 0 <= j < hashes.len() && hashes[j] == h;
        assert(assoc::has_key(after.row_states, hashes[j]));
    }
}

/// Memories that are all among the hashes are all kept.
proof fn lemma_kept_all(s: Seq<(RowHash, RowModel)>, hashes: Seq<RowHash>)
    requires
        forall|i: int| 0 <= i < s.len() ==> hashes.contains((#[trigger] s[i]).0),
    ensures
        kept(s, hashes) == s,
    decreases s.len(),
{
    if s.len() > 0 {
        let rest = s.drop_last();
        assert forall|i: int| 0 <= i < rest.len() implies hashes.contains((#[trigger] rest[i]).0) by {
            assert(rest[i] == s[i]);
        }
        lemma_kept_all(rest, hashes);
        assert(s.last() == s[s.len() - 1]);
        assert(rest.push(s.last()) =~= s);
    }
    assert(kept(s, hashes) =~= s);
}

/// Where every hash has a memory, none is added.
proof fn lemma_filled_all(s: Seq<(RowHash, RowModel)>, hashes: Seq<RowHash>, new: RowModel)
    requires
        forall|j: int| 0 <= j < hashes.len() ==> assoc::has_key(s, #[trigger] hashes[j]),
    ensures
        filled(s, hashes, new) == s,
    decreases hashes.len(),
{
    if hashes.len() > 0 {
        let rest = hashes.drop_last();
        assert forall|j: int| 0 <= j < rest.len() implies assoc::has_key(s, #[trigger] rest[j]) by {
            assert(rest[j] == hashes[j]);
        }
        lemma_filled_all(s, rest, new);
        assert(hashes.last() == hashes[hashes.len() - 1]);
    }
}

/// What is kept is among the hashes.
proof fn lemma_kept_among(s: Seq<(RowHash, RowModel)>, hashes: Seq<RowHash>)
    ensures
        forall|i: int|
            0 <= i < kept(s, hashes).len() ==> hashes.contains((#[trigger] kept(s, hashes)[i]).0),
    decreases s.len(),
{
    if s.len() > 0 {
        let before = kept(s.drop_last(), hashes);
        lemma_kept_among(s.drop_last(), hashes);
        assert forall|i: int| 0 <= i < kept(s, hashes).len() implies hashes.contains(
            (#[trigger] kept(s, hashes)[i]).0,
        ) by {
            if i < before.len() {
                assert(kept(s, hashes)[i] == before[i]);
            }
        }
    }
}

/// What is added is among the hashes.
proof fn lemma_filled_among(
    s: Seq<(RowHash, RowModel)>,
    hashes: Seq<RowHash>,
    new: RowModel,
    all: Seq<RowHash>,
)
    requires
        forall|i: int| 0 <= i < s.len() ==> all.contains((#[trigger] s[i]).0),
        forall|j: int| 0 <= j < hashes.len() ==> all.contains(#[trigger] hashes[j]),
    ensures
        forall|i: int|
            0 <= i < filled(s, hashes, new).len() ==> all.contains(
                (#[trigger] filled(s, hashes, new)[i]).0,
            ),
    decreases hashes.len(),
{
    if hashes.len() > 0 {
        let rest = hashes.drop_last();
        assert forall|j: int| 0 <= j < rest.len() implies all.contains(#[trigger] rest[j]) by {
            assert(rest[j] == hashes[j]);
        }
        lemma_filled_among(s, rest, new, all);
        let before = filled(s, rest, new);
        assert(hashes.last() == hashes[hashes.len() - 1]);
        assert forall|i: int| 0 <= i < filled(s, hashes, new).len() implies all.contains(
            (#[trigger] filled(s, hashes, new)[i]).0,
        ) by {
            if i < before.len() {
                assert(filled(s, hashes, new)[i] == before[i]);
            }
        }
    }
}

/// A memory that was reconciled with some rows, whatever the rows then came to
/// remember, is what it is when it is reconciled with them again.
pub proof fn law_reconcile_settles(
    m: TableModel,
    hashes: Seq<RowHash>,
    after: TableModel,
    shape: Shape,
)
    requires
        fits(m, shape),
        same_but_rows(m.reconcile(hashes), after),
    ensures
        after.reconcile(hashes) == after,
        after.ordered_row_hashes == hashes,
        after.selected_row is None <==> hashes.len() == 0,
{
    let first = m.reconcile(hashes);
    law_reconcile_fits(m, hashes, shape);
    lemma_kept_among(m.row_states, hashes);
    assert forall|j: int| 0 <= j < hashes.len() implies hashes.contains(#[trigger] hashes[j]) by {}
    lemma_filled_among(kept(m.row_states, hashes), hashes, m.default_row_state, hashes);
    assoc::lemma_same_keys(first.row_states, after.row_states);
    assert forall|i: int| 0 <= i < after.row_states.len() implies hashes.contains(
        (#[trigger] after.row_states[i]).0,
    ) by {
        assert(first.row_states[i].0 == after.row_states[i].0);
    }
    lemma_kept_all(after.row_states, hashes);
    assert forall|j: int| 0 <= j < hashes.len() implies assoc::has_key(
        after.row_states,
        #[trigger] hashes[j],
    ) by {
        assert(first.ordered_row_hashes[j] == hashes[j]);
        assert(assoc::has_key(first.row_states, hashes[j]));
    }
    lemma_filled_all(after.row_states, hashes, after.default_row_state);
}

/// Two memories of the same rows that differ in nothing but what each of the
/// rows remembers.
pub open spec fn same_but_rows(m: TableModel, after: TableModel) -> bool {
    &&& after == (TableModel { row_states: after.row_states, ..m })
    &&& after.row_states.len() == m.row_states.len()
    &&& forall|i: int|
        0 <= i < m.row_states.len() ==> (#[trigger] m.row_states[i]).0 == (
        #[trigger] after.row_states[i]).0
}

/// Another memory for a row keeps a table's memory in order.
pub proof fn lemma_with_row_fits(m: TableModel, h: RowHash, r: RowModel, shape: Shape)
    requires
        fits(m, shape),
        row_fits(r, shape),
    ensures
        fits(m.with_row(h, r), shape),
        m.with_row(h, r).row_states.len() == m.row_states.len(),
        forall|i: int|
            0 <= i < m.row_states.len() ==> (#[trigger] m.with_row(h, r).row_states[i]).0
                == m.row_states[i].0,
{
    let after = m.with_row(h, r);
    if assoc::has_key(m.row_states, h) {
        let i = assoc::index_of(m.row_states, h);
        assert(assoc::key_at(m.row_states, i, h));
        lemma_rows_fit(m.row_states, shape);
        lemma_rows_fit(after.row_states, shape);
        assert forall|g: RowHash| #[trigger]
            assoc::has_key(m.row_states, g) implies assoc::has_key(after.row_states, g) by {
            let j = assoc::index_of(m.row_states, g);
            assert(assoc::key_at(m.row_states, j, g));
            assert(assoc::key_at(after.row_states, j, g));
        }
    }
}

/// The memory of a row of a table in order is in order.
pub proof fn lemma_row_of_fits(m: TableModel, h: RowHash, shape: Shape)
    requires
        fits(m, shape),
        assoc::has_key(m.row_states, h),
    ensures
        row_fits(m.row(h), shape),
        m.row(h).sub_table_states.len() == shape.subs.len(),
        forall|i: int|
            0 <= i < shape.subs.len() ==> sub_fits(
                #[trigger] m.row(h).sub_table_states[i],
                shape.subs[i],
            ),
{
    let i = assoc::index_of(m.row_states, h);
    assert(assoc::key_at(m.row_states, i, h));
    lemma_rows_fit(m.row_states, shape);
    lemma_subs_fit(m.row(h).sub_table_states, shape.subs);
}

/// A section's memory replaced by one that fits.
pub proof fn lemma_sub_update_fits(r: RowModel, i: int, s: Option<TableModel>, shape: Shape)
    requires
        row_fits(r, shape),
        0 <= i < shape.subs.len(),
        sub_fits(s, shape.subs[i]),
    ensures
        row_fits(RowModel { sub_table_states: r.sub_table_states.update(i, s), ..r }, shape),
{
    lemma_subs_fit(r.sub_table_states, shape.subs);
    lemma_subs_fit(r.sub_table_states.update(i, s), shape.subs);
}

proof fn lemma_place(s: Seq<char>, x: char, i: int)
    requires
        0 <= i,
    ensures
        place_of(s, x, i) matches Some(k) ==> i <= k < s.len() && s[k] == x,
    decreases s.len() - i,
{
    if i < s.len() && s[i] != x {
        lemma_place(s, x, i + 1);
    }
}

proof fn lemma_place_hash(s: Seq<RowHash>, x: RowHash, i: int)
    requires
        0 <= i,
    ensures
        place_of(s, x, i) matches Some(k) ==> i <= k < s.len() && s[k] == x,
    decreases s.len() - i,
{
    if i < s.len() && s[i] != x {
        lemma_place_hash(s, x, i + 1);
    }
}

/// Selecting a row keeps a table's memory in order.
proof fn lemma_goto_fits(m: TableModel, index: int, shape: Shape)
    requires
        fits(m, shape),
        0 <= index,
    ensures
        fits(m.goto(index), shape),
{
    let n = m.ordered_row_hashes.len();
    if n > 0 {
        let k = if index < n {
            index
        } else {
            n - 1
        };
        assert(assoc::has_key(m.row_states, m.ordered_row_hashes[k]));
    }
}

/// An event that a table takes itself keeps its memory in order.
proof fn lemma_apply_fits(m: TableModel, event: TableEvent, nested: bool, shape: Shape)
    requires
        fits(m, shape),
    ensures
        fits(m.apply(event, nested).0, shape),
{
    if let Some(h) = m.selected_row {
        lemma_row_of_fits(m, h, shape);
        lemma_place_hash(m.ordered_row_hashes, h, 0);
        match event {
            TableEvent::Mark => {
                lemma_with_row_fits(m, h, m.row(h).toggle_mark(), shape);
            },
            TableEvent::ToggleSub => {
                lemma_with_row_fits(m, h, m.row(h).toggle_sub(), shape);
            },
            TableEvent::ToggleSection(key) => {
                lemma_place(m.sub_keys, key, 0);
                if let Some(i) = place_of(m.sub_keys, key, 0) {
                    lemma_with_row_fits(m, h, m.row(h).toggle_section(i), shape);
                }
            },
            TableEvent::FocusSection(key) => {
                lemma_place(m.sub_keys, key, 0);
                if let Some(i) = place_of(m.sub_keys, key, 0) {
                    let r = m.row(h);
                    let s = r.focus_section(i).sub_table_states[i];
                    assert(sub_fits(r.sub_table_states[i], shape.subs[i]));
                    lemma_sub_update_fits(r, i, s, shape);
                    let open = RowModel {
                        show_sub: true,
                        show_sections: r.show_sections.update(i, true),
                        ..r
                    };
                    assert(r.focus_section(i) == RowModel {
                        sub_table_states: open.sub_table_states.update(i, s),
                        ..open
                    });
                    lemma_with_row_fits(m, h, r.focus_section(i), shape);
                }
            },
            TableEvent::Up => {
                if let Some(i) = place_of(m.ordered_row_hashes, h, 0) {
                    lemma_goto_fits(
                        m,
                        if i > 0 {
                            i - 1
                        } else {
                            0
                        },
                        shape,
                    );
                }
            },
            TableEvent::Down => {
                if let Some(i) = place_of(m.ordered_row_hashes, h, 0) {
                    lemma_goto_fits(m, i + 1, shape);
                }
            },
            _ => {},
        }
    }
    lemma_goto_fits(m, 0, shape);
    lemma_goto_fits(m, m.ordered_row_hashes.len() as int, shape);
    if event is Unmark {
        let after = m.unmark();
        lemma_rows_fit(m.row_states, shape);
        lemma_rows_fit(after.row_states, shape);
        assert forall|i: int| 0 <= i < after.row_states.len() implies row_fits(
            (#[trigger] after.row_states[i]).1,
            shape,
        ) by {
            assert(row_fits(m.row_states[i].1, shape));
        }
        assert forall|g: RowHash| #[trigger]
            assoc::has_key(m.row_states, g) implies assoc::has_key(after.row_states, g) by {
            let j = assoc::index_of(m.row_states, g);
            assert(assoc::key_at(m.row_states, j, g));
            assert(assoc::key_at(after.row_states, j, g));
        }
        assert(assoc::distinct_keys(after.row_states)) by {
            assert forall|i: int, j: int| 0 <= i < j < after.row_states.len() implies (
            #[trigger] after.row_states[i]).0 != (#[trigger] after.row_states[j]).0 by {
                assert(m.row_states[i].0 != m.row_states[j].0);
            }
        }
    }
}

/// No event puts a table's memory out of order.
pub proof fn law_handled_fits(m: TableModel, event: TableEvent, nested: bool, shape: Shape)
    requires
        fits(m, shape),
    ensures
        fits(handled(m, event, nested).0, shape),
    decreases m,
{
    match m.focused_sub() {
        Some(sub) => {
            let h = m.selected_row->0;
            let k = m.focused_section->0 as int;
            let i = assoc::index_of(m.row_states, h);
            assert(assoc::key_at(m.row_states, i, h));
            lemma_row_of_fits(m, h, shape);
            let r = m.row(h);
            assert(sub_fits(r.sub_table_states[k], shape.subs[k]));
            assert(decreases_to!(m => m.row_states));
            assert(decreases_to!(m.row_states => m.row_states[i]));
            assert(decreases_to!(m.row_states[i] => m.row_states[i].1));
            assert(decreases_to!(r => r.sub_table_states));
            assert(decreases_to!(r.sub_table_states => r.sub_table_states[k]));
            assert(decreases_to!(r.sub_table_states[k] => r.sub_table_states[k]->0));
            law_handled_fits(sub, event, true, shape.subs[k]->0);
            let t = handled(sub, event, true).0;
            lemma_sub_update_fits(r, k, Some(t), shape);
            lemma_with_row_fits(
                m,
                h,
                RowModel { sub_table_states: r.sub_table_states.update(k, Some(t)), ..r },
                shape,
            );
        },
        None => {
            let bare = TableModel { focused_section: None, ..m };
            lemma_apply_fits(bare, event, nested, shape);
        },
    }
}

/// Another memory for a row, and then the first one again.
proof fn lemma_with_row_twice(m: TableModel, h: RowHash, r: RowModel, shape: Shape)
    requires
        fits(m, shape),
        assoc::has_key(m.row_states, h),
    ensures
        m.with_row(h, r).row(h) == r,
        m.with_row(h, r).with_row(h, m.row(h)) == m,
        assoc::has_key(m.with_row(h, r).row_states, h),
{
    let i = assoc::index_of(m.row_states, h);
    assert(assoc::key_at(m.row_states, i, h));
    let after = m.with_row(h, r);
    assoc::lemma_same_keys(m.row_states, after.row_states);
    assert(after.with_row(h, m.row(h)).row_states =~= m.row_states);
}

/// Marking a row, opening it and showing the totals are undone by doing them
/// again.
pub proof fn law_toggles_undo(m: TableModel, event: TableEvent, shape: Shape)
    requires
        fits(m, shape),
        m.focused_section is None,
        event == TableEvent::Mark || event == TableEvent::ToggleSub || event
            == TableEvent::ToggleTotal,
    ensures
        handled(handled(m, event, false).0, event, false).0 == m,
{
    reveal_with_fuel(handled, 2);
    if let Some(h) = m.selected_row {
        lemma_with_row_twice(m, h, m.row(h).toggle_mark(), shape);
        lemma_with_row_twice(m, h, m.row(h).toggle_sub(), shape);
        assert(m.row(h).toggle_mark().toggle_mark() == m.row(h));
        assert(m.row(h).toggle_sub().toggle_sub() == m.row(h));
    }
}

/// After unmarking no row is marked.
pub proof fn law_unmark(m: TableModel)
    requires
        m.focused_section is None,
    ensures
        forall|i: int|
            0 <= i < m.row_states.len() ==> !(#[trigger] handled(
                m,
                TableEvent::Unmark,
                false,
            ).0.row_states[i]).1.marked,
{
}

/// The selected row is one of the rows.
pub open spec fn selection_ok(m: TableModel) -> bool {
    m.selected_row matches Some(h) ==> m.ordered_row_hashes.contains(h)
}

/// Whatever happens, the selected row stays one of the rows.
pub proof fn law_selection_kept(m: TableModel, event: TableEvent, nested: bool)
    requires
        selection_ok(m),
    ensures
        selection_ok(handled(m, event, nested).0),
{
    let bare = TableModel { focused_section: None, ..m };
    if m.focused_sub() is None {
        if let Some(h) = m.selected_row {
            lemma_place_hash(m.ordered_row_hashes, h, 0);
        }
        let after = bare.apply(event, nested).0;
        if let Some(h) = after.selected_row {
            let n = m.ordered_row_hashes.len();
            if after.selected_row != m.selected_row {
                assert(exists|k: int| 0 <= k < n && m.ordered_row_hashes[k] == h);
            }
        }
    }
}

/// Down and up again, or up and down again, selects the same row, but for the
/// last and the first.
pub proof fn law_down_up(m: TableModel, i: int)
    requires
        m.focused_section is None,
        0 <= i < m.ordered_row_hashes.len(),
        m.selected_row == Some(m.ordered_row_hashes[i]),
        m.ordered_row_hashes.no_duplicates(),
    ensures
        i + 1 < m.ordered_row_hashes.len() ==> handled(
            handled(m, TableEvent::Down, false).0,
            TableEvent::Up,
            false,
        ).0 == m,
        i > 0 ==> handled(handled(m, TableEvent::Up, false).0, TableEvent::Down, false).0 == m,
{
    reveal_with_fuel(handled, 2);
    lemma_place_unique(m.ordered_row_hashes, i, 0);
    if i + 1 < m.ordered_row_hashes.len() {
        lemma_place_unique(m.ordered_row_hashes, i + 1, 0);
    }
    if i > 0 {
        lemma_place_unique(m.ordered_row_hashes, i - 1, 0);
    }
}

proof fn lemma_place_unique(s: Seq<RowHash>, i: int, from: int)
    requires
        0 <= from <= i < s.len(),
        s.no_duplicates(),
    ensures
        place_of(s, s[i], from) == Some(i),
    decreases i - from,
{
    if from < i {
        assert(s[from] != s[i]);
        lemma_place_unique(s, i, from + 1);
    }
}

/// A section's table that is given the focus gives it back.
pub proof fn law_focus_returns(m: TableModel, key: char, i: int, shape: Shape)
    requires
        fits(m, shape),
        m.focused_section is None,
        m.selected_row is Some,
        place_of(m.sub_keys, key, 0) == Some(i),
        m.row(m.selected_row->0).sub_table_states[i] matches Some(t) && t.focused_section is None,
    ensures
        ({
            let h = m.selected_row->0;
            let focused = handled(m, TableEvent::FocusSection(key), false).0;
            let back = handled(focused, TableEvent::UnfocusSection, false).0;
            &&& focused.focused_section == Some(i as nat)
            &&& (focused.row(h).sub_table_states[i]->0).prev_focused == Some(true)
            &&& back.focused_section is None
            &&& (back.row(h).sub_table_states[i]->0).prev_focused == Some(false)
        }),
{
    reveal_with_fuel(handled, 3);
    let h = m.selected_row->0;
    lemma_row_of_fits(m, h, shape);
    lemma_place(m.sub_keys, key, 0);
    let r = m.row(h).focus_section(i);
    lemma_with_row_twice(m, h, r, shape);
    let focused = handled(m, TableEvent::FocusSection(key), false).0;
    assert(focused.row_states == m.with_row(h, r).row_states);
    law_handled_fits(m, TableEvent::FocusSection(key), false, shape);
    assert(focused.row(h) == r);
    assert(focused.focused_sub() == r.sub_table_states[i]);
    let sub = r.sub_table_states[i]->0;
    let (t, unfocus) = handled(sub, TableEvent::UnfocusSection, true);
    assert(unfocus && t.prev_focused == Some(false));
    let next = RowModel { sub_table_states: r.sub_table_states.update(i, Some(t)), ..r };
    lemma_with_row_twice(focused, h, next, shape);
}

/// A copy of a list of bits.
fn copy_bits(bits: &Vec<bool>) -> (r: Vec<bool>)
    ensures
        r@ == bits@,
{
    let mut r: Vec<bool> = Vec::new();
    let mut i: usize = 0;
    while i < bits.len()
        invariant
            i <= bits@.len(),
            r@ == bits@.take(i as int),
        decreases bits@.len() - i,
    {
        assert(bits@.take(i as int + 1) =~= bits@.take(i as int).push(bits@[i as int]));
        r.push(bits[i]);
        i += 1;
    }
    assert(r@ =~= bits@);
    r
}

/// A copy of a list of numbers.
fn copy_hashes(hashes: &Vec<RowHash>) -> (r: Vec<RowHash>)
    ensures
        r@ == hashes@,
{
    let mut r: Vec<RowHash> = Vec::new();
    let mut i: usize = 0;
    while i < hashes.len()
        invariant
            i <= hashes@.len(),
            r@ == hashes@.take(i as int),
        decreases hashes@.len() - i,
    {
        assert(hashes@.take(i as int + 1) =~= hashes@.take(i as int).push(hashes@[i as int]));
        r.push(hashes[i]);
        i += 1;
    }
    assert(r@ =~= hashes@);
    r
}

/// A copy of a list of keys.
fn copy_keys(keys: &Vec<char>) -> (r: Vec<char>)
    ensures
        r@ == keys@,
{
    let mut r: Vec<char> = Vec::new();
    let mut i: usize = 0;
    while i < keys.len()
        invariant
            i <= keys@.len(),
            r@ == keys@.take(i as int),
        decreases keys@.len() - i,
    {
        assert(keys@.take(i as int + 1) =~= keys@.take(i as int).push(keys@[i as int]));
        r.push(keys[i]);
        i += 1;
    }
    assert(r@ =~= keys@);
    r
}

/// A copy of a list of orders.
fn copy_sorts(sorts: &Vec<Sort>) -> (r: Vec<Sort>)
    ensures
        r@ == sorts@,
{
    let mut r: Vec<Sort> = Vec::new();
    let mut i: usize = 0;
    while i < sorts.len()
        invariant
            i <= sorts@.len(),
            r@ == sorts@.take(i as int),
        decreases sorts@.len() - i,
    {
        assert(sorts@.take(i as int + 1) =~= sorts@.take(i as int).push(sorts@[i as int]));
        r.push(sorts[i]);
        i += 1;
    }
    assert(r@ =~= sorts@);
    r
}

/// Where a number stands in a list.
fn find_hash(hashes: &Vec<RowHash>, h: RowHash) -> (r: Option<usize>)
    ensures
        match r {
            Some(i) => place_of(hashes@, h, 0) == Some(i as int) && i < hashes@.len()
                && hashes@[i as int] == h && hashes@.contains(h),
            None => place_of(hashes@, h, 0) is None && !hashes@.contains(h),
        },
{
    let mut i: usize = 0;
    while i < hashes.len()
        invariant
            i <= hashes@.len(),
            place_of(hashes@, h, 0) == place_of(hashes@, h, i as int),
            forall|j: int| 0 <= j < i ==> hashes@[j] != h,
        decreases hashes@.len() - i,
    {
        if hashes[i] == h {
            return Some(i);
        }
        i += 1;
    }
    None
}

/// Where a key stands in a list.
fn find_key(keys: &Vec<char>, key: char) -> (r: Option<usize>)
    ensures
        match r {
            Some(i) => place_of(keys@, key, 0) == Some(i as int) && i < keys@.len(),
            None => place_of(keys@, key, 0) is None,
        },
{
    let mut i: usize = 0;
    while i < keys.len()
        invariant
            i <= keys@.len(),
            place_of(keys@, key, 0) == place_of(keys@, key, i as int),
        decreases keys@.len() - i,
    {
        if keys[i] == key {
            return Some(i);
        }
        i += 1;
    }
    None
}

/// The contents of rows' memories when one of them changes.
pub proof fn lemma_row_updated(s: Seq<(RowHash, RowState)>, i: int, e: (RowHash, RowState))
    requires
        0 <= i < s.len(),
    ensures
        row_models(s.update(i, e)) == row_models(s).update(i, (e.0, e.1.model())),
{
    lemma_row_models(s);
    lemma_row_models(s.update(i, e));
    assert(row_models(s.update(i, e)) =~= row_models(s).update(i, (e.0, e.1.model())));
}

/// The contents of sections' memories when one of them changes.
pub proof fn lemma_sub_updated(s: Seq<Option<TableState>>, i: int, e: Option<TableState>)
    requires
        0 <= i < s.len(),
    ensures
        sub_models(s.update(i, e)) == sub_models(s).update(i, sub_model(e)),
{
    lemma_sub_models(s);
    lemma_sub_models(s.update(i, e));
    assert(sub_models(s.update(i, e)) =~= sub_models(s).update(i, sub_model(e)));
}

impl RowState {
    /// A copy of the memory.
    pub fn copy(&self) -> (r: RowState)
        ensures
            r.model() == self.model(),
        decreases self,
    {
        let mut subs: Vec<Option<TableState>> = Vec::new();
        let mut i: usize = 0;
        while i < self.sub_table_states.len()
            invariant
                i <= self.sub_table_states@.len(),
                subs@.len() == i,
                forall|j: int|
                    0 <= j < i ==> sub_model(#[trigger] subs@[j]) == sub_model(
                        self.sub_table_states@[j],
                    ),
            decreases self.sub_table_states@.len() - i,
        {
            let sub = match &self.sub_table_states[i] {
                Some(t) => {
                    assert(decreases_to!(self => self.sub_table_states));
                    assert(decreases_to!(self.sub_table_states@ => self.sub_table_states@[i as int]));
                    Some(t.copy())
                },
                None => None,
            };
            subs.push(sub);
            i += 1;
        }
        proof {
            lemma_sub_models(subs@);
            lemma_sub_models(self.sub_table_states@);
            assert(sub_models(subs@) =~= sub_models(self.sub_table_states@));
        }
        RowState {
            marked: self.marked,
            show_sub: self.show_sub,
            show_sections: copy_bits(&self.show_sections),
            sub_table_states: subs,
        }
    }

    /// Marks the row, or unmarks it.
    fn toggle_mark(&mut self)
        ensures
            final(self).model() == old(self).model().toggle_mark(),
    {
        self.marked = !self.marked;
    }

    /// Opens the row, or closes it.
    fn toggle_sub(&mut self)
        ensures
            final(self).model() == old(self).model().toggle_sub(),
    {
        self.show_sub = !self.show_sub;
    }

    /// Opens the row and shows a section that was not shown, or the reverse.
    fn toggle_section(&mut self, index: usize)
        requires
            index < old(self).show_sections@.len(),
        ensures
            final(self).model() == old(self).model().toggle_section(index as int),
    {
        self.show_sub = true;
        let shown = self.show_sections[index];
        self.show_sections[index] = !shown;
    }

    /// Opens the row, shows a section and gives its table the focus.
    fn focus_section(&mut self, index: usize)
        requires
            index < old(self).show_sections@.len(),
            index < old(self).sub_table_states@.len(),
        ensures
            final(self).model() == old(self).model().focus_section(index as int),
    {
        let ghost before = self.sub_table_states@;
        self.show_sub = true;
        self.show_sections[index] = true;
        let sub = &mut self.sub_table_states[index];
        if let Some(state) = sub {
            state.prev_focused = Some(true);
        }
        proof {
            lemma_sub_models(before);
            lemma_sub_updated(before, index as int, self.sub_table_states@[index as int]);
            assert(self.sub_table_states@ =~= before.update(
                index as int,
                self.sub_table_states@[index as int],
            ));
        }
    }
}

impl TableState {
    /// A copy of the memory.
    pub fn copy(&self) -> (r: TableState)
        ensures
            r.model() == self.model(),
        decreases self,
    {
        let mut rows: Vec<(RowHash, RowState)> = Vec::new();
        let mut i: usize = 0;
        while i < self.row_states.len()
            invariant
                i <= self.row_states@.len(),
                rows@.len() == i,
                forall|j: int|
                    0 <= j < i ==> (#[trigger] rows@[j]).0 == self.row_states@[j].0
                        && rows@[j].1.model() == self.row_states@[j].1.model(),
            decreases self.row_states@.len() - i,
        {
            assert(decreases_to!(self => self.row_states));
            assert(decreases_to!(self.row_states@ => self.row_states@[i as int]));
            rows.push((self.row_states[i].0, self.row_states[i].1.copy()));
            i += 1;
        }
        proof {
            lemma_row_models(rows@);
            lemma_row_models(self.row_states@);
            assert(row_models(rows@) =~= row_models(self.row_states@));
        }
        TableState {
            prev_focused: self.prev_focused,
            focused_section: self.focused_section,
            selected_row: self.selected_row,
            row_states: rows,
            column_sorts: copy_sorts(&self.column_sorts),
            show_total: self.show_total,
            sub_keys: copy_keys(&self.sub_keys),
            default_row_state: self.default_row_state.copy(),
            ordered_row_hashes: copy_hashes(&self.ordered_row_hashes),
        }
    }

    /// Where a row's memory stands.
    pub fn find_row(&self, h: RowHash) -> (r: Option<usize>)
        requires
            sound(self.model()),
        ensures
            match r {
                Some(i) => {
                    &&& i < self.row_states@.len()
                    &&& self.row_states@[i as int].0 == h
                    &&& assoc::has_key(self.model().row_states, h)
                    &&& assoc::index_of(self.model().row_states, h) == i
                    &&& self.model().row(h) == self.row_states@[i as int].1.model()
                },
                None => !assoc::has_key(self.model().row_states, h),
            },
    {
        let ghost models = row_models(self.row_states@);
        proof {
            lemma_row_models(self.row_states@);
            let shape = choose|shape: Shape| fits(self.model(), shape);
            assert(fits(self.model(), shape));
        }
        let mut i: usize = 0;
        while i < self.row_states.len()
            invariant
                i <= self.row_states@.len(),
                models == row_models(self.row_states@),
                models.len() == self.row_states@.len(),
                assoc::distinct_keys(models),
                forall|j: int|
                    0 <= j < models.len() ==> #[trigger] models[j] == (
                        self.row_states@[j].0,
                        self.row_states@[j].1.model(),
                    ),
                forall|j: int| 0 <= j < i ==> (#[trigger] models[j]).0 != h,
            decreases self.row_states@.len() - i,
        {
            if self.row_states[i].0 == h {
                proof {
                    assert(assoc::key_at(models, i as int, h));
                    assoc::lemma_index_unique(models, i as int, h);
                }
                return Some(i);
            }
            i += 1;
        }
        assert forall|j: int| !assoc::key_at(models, j, h) by {
            if 0 <= j < models.len() {
                assert(models[j].0 != h);
            }
        }
        None
    }

    /// Keeps the memories of rows that are still there, and starts new ones.
    pub fn reconcile(&mut self, ordered_row_hashes: Vec<RowHash>)
        requires
            sound(old(self).model()),
        ensures
            final(self).model() == old(self).model().reconcile(ordered_row_hashes@),
            sound(final(self).model()),
            forall|shape: Shape| #[trigger]
                fits(old(self).model(), shape) ==> fits(final(self).model(), shape),
    {
        let ghost before = self.model();
        let ghost hashes = ordered_row_hashes@;
        let first = if ordered_row_hashes.len() == 0 {
            None
        } else {
            Some(ordered_row_hashes[0])
        };
        let stays = match self.selected_row {
            Some(h) => find_hash(&ordered_row_hashes, h).is_some(),
            None => false,
        };
        if !stays {
            self.selected_row = first;
        }
        let ghost start = row_models(self.row_states@);
        let ghost mut seen: int = 0;
        let mut i: usize = 0;
        proof {
            lemma_row_models(self.row_states@);
            assert(start.take(0) =~= Seq::empty());
            assert(start.skip(0) =~= start);
            assert(row_models(self.row_states@) =~= kept(start.take(0), hashes) + start.skip(0));
        }
        while i < self.row_states.len()
            invariant
                0 <= seen <= start.len(),
                i == kept(start.take(seen), hashes).len(),
                i <= self.row_states@.len(),
                hashes == ordered_row_hashes@,
                row_models(self.row_states@) == kept(start.take(seen), hashes) + start.skip(seen),
                *self == (TableState {
                    row_states: self.row_states,
                    selected_row: self.selected_row,
                    ..*old(self)
                }),
                self.selected_row == before.reconcile(hashes).selected_row,
            decreases self.row_states@.len() - i,
        {
            let ghost earlier = self.row_states@;
            proof {
                lemma_row_models(earlier);
                assert(start.take(seen + 1).drop_last() =~= start.take(seen));
                assert(start.skip(seen)[0] == start[seen]);
            }
            let h = self.row_states[i].0;
            assert(row_models(earlier)[i as int] == start.skip(seen)[0]);
            assert(h == start[seen].0);
            if find_hash(&ordered_row_hashes, h).is_some() {
                assert(kept(start.take(seen + 1), hashes) + start.skip(seen + 1) =~= kept(
                    start.take(seen),
                    hashes,
                ) + start.skip(seen));
                i += 1;
            } else {
                self.row_states.remove(i);
                proof {
                    lemma_row_models(self.row_states@);
                    assert(start.take(seen + 1).last() == start[seen]);
                    let now = row_models(self.row_states@);
                    let then = row_models(earlier);
                    let wanted = kept(start.take(seen + 1), hashes) + start.skip(seen + 1);
                    assert(now.len() == wanted.len());
                    assert forall|n: int| 0 <= n < now.len() implies now[n] == wanted[n] by {
                        assert(now[n] == if n < i {
                            then[n]
                        } else {
                            then[n + 1]
                        });
                    }
                    assert(now =~= wanted);
                }
            }
            proof {
                seen = seen + 1;
            }
        }
        proof {
            lemma_row_models(self.row_states@);
            assert(start.skip(seen).len() == 0);
            assert(seen == start.len());
            assert(start.take(seen) =~= start);
            assert(row_models(self.row_states@) =~= kept(start, hashes));
        }
        let ghost base = row_models(self.row_states@);
        let mut j: usize = 0;
        assert(hashes.take(0) =~= Seq::empty());
        while j < ordered_row_hashes.len()
            invariant
                j <= hashes.len(),
                hashes == ordered_row_hashes@,
                *self == (TableState {
                    row_states: self.row_states,
                    selected_row: self.selected_row,
                    ..*old(self)
                }),
                self.selected_row == before.reconcile(hashes).selected_row,
                before == old(self).model(),
                row_models(self.row_states@) == filled(
                    base,
                    hashes.take(j as int),
                    before.default_row_state,
                ),
            decreases hashes.len() - j,
        {
            assert(hashes.take(j as int + 1).drop_last() =~= hashes.take(j as int));
            let h = ordered_row_hashes[j];
            let mut found = false;
            let mut k: usize = 0;
            proof {
                lemma_row_models(self.row_states@);
            }
            let ghost models = row_models(self.row_states@);
            while k < self.row_states.len() && !found
                invariant
                    k <= self.row_states@.len(),
                    models.len() == self.row_states@.len(),
                    forall|n: int|
                        0 <= n < models.len() ==> #[trigger] models[n] == (
                            self.row_states@[n].0,
                            self.row_states@[n].1.model(),
                        ),
                    found ==> assoc::has_key(models, h),
                    !found ==> forall|n: int| 0 <= n < k ==> (#[trigger] models[n]).0 != h,
                decreases self.row_states@.len() - k,
            {
                if self.row_states[k].0 == h {
                    assert(assoc::key_at(models, k as int, h));
                    found = true;
                }
                k += 1;
            }
            if !found {
                proof {
                    assert forall|n: int| !assoc::key_at(models, n, h) by {
                        if 0 <= n < models.len() {
                            assert(models[n].0 != h);
                        }
                    }
                }
                let ghost earlier = self.row_states@;
                self.row_states.push((h, self.default_row_state.copy()));
                assert(self.row_states@.drop_last() =~= earlier);
            }
            j += 1;
        }
        assert(hashes.take(j as int) =~= hashes);
        self.ordered_row_hashes = ordered_row_hashes;
        proof {
            assert forall|shape: Shape| #[trigger] fits(before, shape) implies fits(
                self.model(),
                shape,
            ) by {
                law_reconcile_fits(before, hashes, shape);
            }
            let shape = choose|shape: Shape| fits(before, shape);
            assert(fits(self.model(), shape));
        }
    }

    /// Selects the row at `index`, or the last one.
    fn goto(&mut self, index: usize)
        ensures
            final(self).model() == old(self).model().goto(index as int),
    {
        let n = self.ordered_row_hashes.len();
        self.selected_row = if n == 0 {
            None
        } else if index < n {
            Some(self.ordered_row_hashes[index])
        } else {
            Some(self.ordered_row_hashes[n - 1])
        };
    }

    /// Selects the row before or behind the selected one.
    fn nav(&mut self, down: bool)
        ensures
            final(self).model() == old(self).model().nav(down),
    {
        let selected = match self.selected_row {
            Some(h) => h,
            None => {
                return;
            },
        };
        let n = self.ordered_row_hashes.len();
        let index = match find_hash(&self.ordered_row_hashes, selected) {
            Some(i) => i,
            None => {
                return;
            },
        };
        assert(index < n);
        let next = if down {
            index + 1
        } else if index > 0 {
            index - 1
        } else {
            0
        };
        self.goto(next);
    }

    /// Unmarks every row.
    fn unmark(&mut self)
        ensures
            final(self).model() == old(self).model().unmark(),
    {
        let ghost before = self.row_states@;
        let mut i: usize = 0;
        while i < self.row_states.len()
            invariant
                i <= self.row_states@.len(),
                self.row_states@.len() == before.len(),
                *self == (TableState { row_states: self.row_states, ..*old(self) }),
                forall|j: int|
                    0 <= j < i ==> #[trigger] self.row_states@[j] == (
                        before[j].0,
                        RowState { marked: false, ..before[j].1 },
                    ),
                forall|j: int|
                    i <= j < before.len() ==> #[trigger] self.row_states@[j] == before[j],
            decreases self.row_states@.len() - i,
        {
            self.row_states[i].1.marked = false;
            i += 1;
        }
        proof {
            lemma_row_models(before);
            lemma_row_models(self.row_states@);
            assert(row_models(self.row_states@) =~= old(self).model().unmark().row_states);
        }
    }

    /// Shows a section of the selected row that was not shown, or the reverse.
    fn toggle_section(&mut self, key: char)
        requires
            sound(old(self).model()),
        ensures
            final(self).model() == old(self).model().toggle_section(key),
    {
        let index = match find_key(&self.sub_keys, key) {
            Some(i) => i,
            None => {
                return;
            },
        };
        if let Some(h) = self.selected_row {
            if let Some(k) = self.find_row(h) {
                proof {
                    lemma_sections(*self, h, k as int);
                    lemma_row_updated_by(self.row_states@, k as int);
                }
                let ghost before = self.row_states@;
                self.row_states[k].1.toggle_section(index);
                proof {
                    lemma_row_updated(before, k as int, self.row_states@[k as int]);
                    assert(self.row_states@ =~= before.update(
                        k as int,
                        self.row_states@[k as int],
                    ));
                }
            }
        }
    }

    /// Shows a section of the selected row and gives it the focus.
    fn focus_section(&mut self, key: char)
        requires
            sound(old(self).model()),
        ensures
            final(self).model() == old(self).model().focus_section(key),
    {
        let index = match find_key(&self.sub_keys, key) {
            Some(i) => i,
            None => {
                return;
            },
        };
        if let Some(h) = self.selected_row {
            if let Some(k) = self.find_row(h) {
                proof {
                    lemma_sections(*self, h, k as int);
                    lemma_row_updated_by(self.row_states@, k as int);
                }
                let ghost before = self.row_states@;
                self.row_states[k].1.focus_section(index);
                proof {
                    lemma_row_updated(before, k as int, self.row_states@[k as int]);
                    assert(self.row_states@ =~= before.update(
                        k as int,
                        self.row_states@[k as int],
                    ));
                }
            }
            self.focused_section = Some(index);
        }
    }

    /// Takes an event that is for this table itself.
    fn take_event(&mut self, event: TableEvent, nested: bool) -> (r: bool)
        requires
            sound(old(self).model()),
        ensures
            (final(self).model(), r) == old(self).model().apply(event, nested),
    {
        match event {
            TableEvent::Up => {
                self.nav(false);
                false
            },
            TableEvent::Down => {
                self.nav(true);
                false
            },
            TableEvent::First => {
                self.goto(0);
                false
            },
            TableEvent::Last => {
                self.goto(self.ordered_row_hashes.len());
                false
            },
            TableEvent::Mark => {
                if let Some(h) = self.selected_row {
                    if let Some(k) = self.find_row(h) {
                        let ghost before = self.row_states@;
                        self.row_states[k].1.toggle_mark();
                        proof {
                            lemma_row_updated(before, k as int, self.row_states@[k as int]);
                            assert(self.row_states@ =~= before.update(
                                k as int,
                                self.row_states@[k as int],
                            ));
                        }
                    }
                }
                false
            },
            TableEvent::Unmark => {
                self.unmark();
                false
            },
            TableEvent::ToggleTotal => {
                self.show_total = !self.show_total;
                false
            },
            TableEvent::ToggleSub => {
                if let Some(h) = self.selected_row {
                    if let Some(k) = self.find_row(h) {
                        let ghost before = self.row_states@;
                        self.row_states[k].1.toggle_sub();
                        proof {
                            lemma_row_updated(before, k as int, self.row_states@[k as int]);
                            assert(self.row_states@ =~= before.update(
                                k as int,
                                self.row_states@[k as int],
                            ));
                        }
                    }
                }
                false
            },
            TableEvent::ToggleSection(key) => {
                self.toggle_section(key);
                false
            },
            TableEvent::FocusSection(key) => {
                self.focus_section(key);
                false
            },
            TableEvent::UnfocusSection => {
                if nested {
                    self.prev_focused = Some(false);
                    true
                } else {
                    false
                }
            },
        }
    }
}

/// The contents of a row's memory among those of all.
proof fn lemma_row_updated_by(s: Seq<(RowHash, RowState)>, i: int)
    requires
        0 <= i < s.len(),
    ensures
        row_models(s)[i] == (s[i].0, s[i].1.model()),
{
    lemma_row_models(s);
}

/// A row's memory has a place for each section.
proof fn lemma_sections(t: TableState, h: RowHash, k: int)
    requires
        sound(t.model()),
        0 <= k < t.row_states@.len(),
        assoc::has_key(t.model().row_states, h),
        assoc::index_of(t.model().row_states, h) == k,
        t.model().row(h) == t.row_states@[k].1.model(),
    ensures
        t.row_states@[k].1.show_sections@.len() == t.sub_keys@.len(),
        t.row_states@[k].1.sub_table_states@.len() == t.sub_keys@.len(),
        t.focused_section matches Some(i) ==> i < t.sub_keys@.len(),
{
    let shape = choose|shape: Shape| fits(t.model(), shape);
    assert(fits(t.model(), shape));
    lemma_row_of_fits(t.model(), h, shape);
    lemma_sub_models(t.row_states@[k].1.sub_table_states@);
}

impl TableState {
    /// Takes an event, and says whether the table that this one is in takes the
    /// focus back.
    fn handle_event_internal(&mut self, event: TableEvent, nested: bool) -> (r: bool)
        requires
            sound(old(self).model()),
        ensures
            (final(self).model(), r) == handled(old(self).model(), event, nested),
        decreases *old(self),
    {
        let ghost before = self.model();
        if let Some(index) = self.focused_section {
            if let Some(h) = self.selected_row {
                if let Some(k) = self.find_row(h) {
                    let ghost rows = self.row_states@;
                    let ghost subs = self.row_states@[k as int].1.sub_table_states@;
                    proof {
                        lemma_sections(*self, h, k as int);
                        lemma_sub_models(subs);
                        lemma_row_models(rows);
                        let shape = choose|shape: Shape| fits(before, shape);
                        lemma_row_of_fits(before, h, shape);
                        assert(sub_fits(
                            before.row(h).sub_table_states[index as int],
                            shape.subs[index as int],
                        ));
                        assert(decreases_to!(*old(self) => old(self).row_states));
                        assert(decreases_to!(rows => rows[k as int]));
                        assert(decreases_to!(rows[k as int] => rows[k as int].1));
                        assert(decreases_to!(rows[k as int].1 => rows[k as int].1.sub_table_states));
                        assert(decreases_to!(subs => subs[index as int]));
                        if subs[index as int] is Some {
                            assert(decreases_to!(subs[index as int] => subs[index as int]->0));
                        }
                    }
                    if self.row_states[k].1.sub_table_states[index].is_some() {
                        let row = &mut self.row_states[k].1;
                        let sub = &mut row.sub_table_states[index];
                        let mut unfocus = false;
                        if let Some(state) = sub {
                            unfocus = state.handle_event_internal(event, true);
                        }
                        proof {
                            let after = self.row_states@[k as int].1.sub_table_states@;
                            assert(after =~= subs.update(index as int, after[index as int]));
                            lemma_sub_updated(subs, index as int, after[index as int]);
                            assert(self.row_states@ =~= rows.update(
                                k as int,
                                self.row_states@[k as int],
                            ));
                            lemma_row_updated(rows, k as int, self.row_states@[k as int]);
                        }
                        if unfocus {
                            self.focused_section = None;
                        }
                        return false;
                    }
                }
            }
            self.focused_section = None;
        }
        proof {
            let shape = choose|shape: Shape| fits(before, shape);
            assert(fits(before, shape));
            assert(fits(self.model(), shape));
        }
        self.take_event(event, nested)
    }

    /// Takes an event.
    pub fn handle_event(&mut self, event: TableEvent)
        requires
            sound(old(self).model()),
        ensures
            final(self).model() == handled(old(self).model(), event, false).0,
            sound(final(self).model()),
            forall|shape: Shape| #[trigger]
                fits(old(self).model(), shape) ==> fits(final(self).model(), shape),
    {
        let ghost before = self.model();
        self.handle_event_internal(event, false);
        proof {
            assert forall|shape: Shape| #[trigger] fits(before, shape) implies fits(
                self.model(),
                shape,
            ) by {
                law_handled_fits(before, event, false, shape);
            }
            let shape = choose|shape: Shape| fits(before, shape);
            assert(fits(self.model(), shape));
        }
    }
}

} // verus!
