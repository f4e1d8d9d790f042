//! How torrents, their peers, trackers, files and pieces stand in tables.

use crate::bitfield::Bitfield;
use crate::flat_table;
use crate::number;
use crate::peer_map::PeerMap;
use crate::pretty;
use crate::style::{Palette, PaletteModel};
use crate::table;
use crate::table::layout;
use crate::table::layout::{Alignment, Cells, Column, ColumnModel};
use crate::table::state;
use crate::table::state::{RowHash, Shape, TableModel, TableState};
use crate::table::{Row, SectionModel, SubSection, Table, TableSubSection, TextSubSection};
use crate::text;
use crate::torrent::control;
use crate::torrent::control::{
    ConnectionProgress, FileInfo, PeerProgress, PieceProgress, Progress, TrackerInfo, TransferProgress,
};
use crate::tracker;
use crate::types;
use crate::types::PeerId;
use std::collections::hash_map::DefaultHasher;
use std::hash::Hasher;
use vstd::prelude::*;
use vstd::std_specs::hash::DefaultHasherAdditionalSpecFns;
use vstd::utf8;

verus! {

/// What a text is known by.
pub open spec fn text_id(s: Seq<char>) -> RowHash {
    DefaultHasher::spec_finish(seq![utf8::encode_utf8(s), seq![0xffu8]])
}

/// What bytes are known by: how many they are, and what they are.
pub open spec fn bytes_id(s: Seq<u8>) -> RowHash {
    DefaultHasher::spec_finish(seq![number::native_of(s.len() as usize), s])
}

/// What a text is known by.
fn hash_text(s: &str) -> (r: RowHash)
    ensures
        r == text_id(s@),
{
    let mut hasher = DefaultHasher::new();
    hasher.write(s.as_bytes());
    let end: [u8; 1] = [0xffu8];
    hasher.write(end.as_slice());
    proof {
        assert(end@ =~= seq![0xffu8]);
        assert(hasher@ =~= seq![utf8::encode_utf8(s@), seq![0xffu8]]);
    }
    hasher.finish()
}

/// What bytes are known by.
fn hash_bytes(s: &[u8]) -> (r: RowHash)
    ensures
        r == bytes_id(s@),
{
    let mut hasher = DefaultHasher::new();
    let length = number::native_bytes(s.len());
    hasher.write(length.as_slice());
    hasher.write(s);
    assert(hasher@ =~= seq![number::native_of(s@.len() as usize), s@]);
    hasher.finish()
}

/// A column that is aligned to the left.
pub open spec fn left(header: Seq<char>) -> ColumnModel {
    ColumnModel { header, ..layout::plain_column() }
}

/// A column that is aligned to the right.
pub open spec fn right(header: Seq<char>) -> ColumnModel {
    ColumnModel { alignment: Alignment::Right, ..left(header) }
}

/// A column that is aligned to the right and has a total.
pub open spec fn summed(header: Seq<char>) -> ColumnModel {
    ColumnModel { has_total: true, ..right(header) }
}

/// A column that shares the rest of the width.
pub open spec fn flexible(header: Seq<char>, flex: usize) -> ColumnModel {
    ColumnModel { flex: Some(flex), ..left(header) }
}

/// A column that is aligned to the left.
fn left_column(header: &str) -> (r: Column)
    ensures
        r@ == left(header@),
{
    let mut r = Column::default();
    r.header = header.to_owned();
    r
}

/// A column that is aligned to the right.
fn right_column(header: &str) -> (r: Column)
    ensures
        r@ == right(header@),
{
    let mut r = left_column(header);
    r.alignment = Alignment::Right;
    r
}

/// A column that is aligned to the right and has a total.
fn summed_column(header: &str) -> (r: Column)
    ensures
        r@ == summed(header@),
{
    let mut r = right_column(header);
    r.has_total = true;
    r
}

/// A column that shares the rest of the width.
fn flexible_column(header: &str, flex: usize) -> (r: Column)
    ensures
        r@ == flexible(header@, flex),
{
    let mut r = left_column(header);
    r.flex = Some(flex);
    r
}

/// A number that may be missing.
pub open spec fn number_cell(n: Option<usize>) -> Seq<char> {
    match n {
        Some(n) => number::decimal(n as nat),
        None => Seq::empty(),
    }
}

/// A time that may be missing.
pub open spec fn duration_cell(seconds: Option<u64>) -> Seq<char> {
    match seconds {
        Some(s) => pretty::duration_text(s as nat),
        None => Seq::empty(),
    }
}

/// A number that may be missing.
fn show_number(n: Option<usize>) -> (r: String)
    ensures
        r@ == number_cell(n),
{
    match n {
        Some(n) => number::to_decimal(n as u64),
        None => nothing(),
    }
}

/// A time that may be missing.
fn show_duration(seconds: Option<u64>) -> (r: String)
    ensures
        r@ == duration_cell(seconds),
{
    match seconds {
        Some(s) => pretty::pretty_duration(s),
        None => nothing(),
    }
}

/// No text.
fn nothing() -> (r: String)
    ensures
        r@ == Seq::<char>::empty(),
{
    let r = String::new();
    assert(r@ =~= Seq::empty());
    r
}

/// The box of a flag.
pub open spec fn flag(b: bool) -> char {
    if b {
        '■'
    } else {
        '□'
    }
}

/// Two flags.
pub open spec fn two_flags(a: bool, b: bool) -> Seq<char> {
    seq![flag(a), ' ', flag(b)]
}

/// The box of a flag.
fn to_flag(b: bool) -> (r: char)
    ensures
        r == flag(b),
{
    if b {
        '■'
    } else {
        '□'
    }
}

/// Two flags.
fn show_two_flags(a: bool, b: bool) -> (r: String)
    ensures
        r@ == two_flags(a, b),
{
    let mut r = String::new();
    r.push(to_flag(a));
    r.push(' ');
    r.push(to_flag(b));
    assert(r@ =~= two_flags(a, b));
    r
}

/// A bitfield as a bar that fills a column; there is none without a width, or
/// where the bitfield is not in order.
pub open spec fn bar_cell(bits: Bitfield, width: Option<usize>) -> Option<Seq<char>> {
    match width {
        Some(width) if bits.wf() => Some(pretty::bar(bits@, width as nat)),
        _ => None,
    }
}

/// A bitfield as a bar that fills a column.
fn show_bar(bits: &Bitfield, width: Option<usize>) -> (r: Option<String>)
    ensures
        match r {
            Some(t) => bar_cell(*bits, width) == Some(t@),
            None => bar_cell(*bits, width) is None,
        },
{
    match width {
        Some(width) => if bits.is_sound() {
            Some(pretty::pretty_bar(bits, width))
        } else {
            None
        },
        None => None,
    }
}

impl Cells for TrackerInfo {
    open spec fn column_models() -> Seq<ColumnModel> {
        seq![
            left(""@),
            left("Url"@),
            right("T"@),
            right("Peer"@),
            right("Seed"@),
            right("Leech"@),
            right("Int"@),
            right("MinInt"@),
        ]
    }

    open spec fn cell(&self, c: int, width: Option<usize>) -> Option<Seq<char>> {
        Some(
            if c == 0 {
                match self.succeeded {
                    Some(ok) => seq![
                        if ok {
                            '✓'
                        } else {
                            '✗'
                        },
                    ],
                    None => Seq::empty(),
                }
            } else if c == 1 {
                self.url@
            } else if c == 2 {
                number::decimal(self.tier as nat)
            } else if c == 3 {
                match self@.endpoints {
                    Some(endpoints) => number::decimal(endpoints.len()),
                    None => Seq::empty(),
                }
            } else if c == 4 {
                number_cell(self.seeders)
            } else if c == 5 {
                number_cell(self.leechers)
            } else if c == 6 {
                duration_cell(self.interval)
            } else {
                duration_cell(self.min_interval)
            },
        )
    }

    open spec fn total_cell(rows: Seq<&Self>, c: int) -> Option<Seq<char>> {
        None
    }

    fn columns() -> (r: Vec<Column>) {
        let mut r: Vec<Column> = Vec::new();
        r.push(left_column(""));
        r.push(left_column("Url"));
        r.push(right_column("T"));
        r.push(right_column("Peer"));
        r.push(right_column("Seed"));
        r.push(right_column("Leech"));
        r.push(right_column("Int"));
        r.push(right_column("MinInt"));
        assert(layout::column_views(r@) =~= Self::column_models());
        r
    }

    fn value(&self, c: usize, width: Option<usize>) -> (r: Option<String>) {
        Some(
            match c {
                0 => match self.succeeded {
                    Some(ok) => {
                        let mut r = String::new();
                        r.push(
                            if ok {
                                '✓'
                            } else {
                                '✗'
                            },
                        );
                        assert(r@ =~= self.cell(c as int, width)->0);
                        r
                    },
                    None => nothing(),
                },
                1 => self.url.clone(),
                2 => number::to_decimal(self.tier as u64),
                3 => match &self.endpoints {
                    Some(endpoints) => number::to_decimal(endpoints.len() as u64),
                    None => nothing(),
                },
                4 => show_number(self.seeders),
                5 => show_number(self.leechers),
                6 => show_duration(self.interval),
                _ => show_duration(self.min_interval),
            },
        )
    }

    fn total(rows: &Vec<&Self>, c: usize) -> (r: Option<String>) {
        None
    }
}

/// The endpoints of a tracker's peers, each on a line of its own.
pub open spec fn endpoint_lines(endpoints: Seq<types::EndpointView>) -> Seq<char> {
    text::joined(types::endpoint_texts(endpoints), "\n"@)
}

impl Row for TrackerInfo {
    open spec fn row_id(&self) -> RowHash {
        text_id(self.url@)
    }

    open spec fn section_models() -> Seq<SectionModel> {
        seq![SectionModel { header: "Peers"@, key: 'p', is_table: false }]
    }

    open spec fn shape() -> Shape {
        Shape { keys: seq!['p'], subs: seq![None] }
    }

    open spec fn fresh_states() -> Seq<Option<TableModel>> {
        seq![None]
    }

    open spec fn section_content(
        &self,
        s: int,
        state: Option<TableModel>,
        width: nat,
        palette: PaletteModel,
    ) -> Option<(Seq<char>, Option<TableModel>)> {
        Some(
            (
                match self@.endpoints {
                    Some(endpoints) => endpoint_lines(endpoints),
                    None => Seq::empty(),
                },
                state,
            ),
        )
    }

    proof fn law_shape() {
        assert(Self::shape().keys =~= table::section_keys(Self::section_models()));
        state::lemma_subs_fit(Self::fresh_states(), Self::shape().subs);
    }

    proof fn law_content_settles(
        &self,
        s: int,
        state: Option<TableModel>,
        width: nat,
        palette: PaletteModel,
    ) {
    }

    fn id(&self) -> (r: RowHash) {
        hash_text(self.url.as_str())
    }

    fn sub_sections() -> (r: Vec<SubSection>) {
        let mut r: Vec<SubSection> = Vec::new();
        r.push(SubSection::Text(TextSubSection { header: "Peers".to_owned(), key: 'p' }));
        assert(table::section_views(r@) =~= Self::section_models());
        r
    }

    fn new_states() -> (r: Vec<Option<TableState>>) {
        let mut r: Vec<Option<TableState>> = Vec::new();
        r.push(None);
        proof {
            state::lemma_sub_models(r@);
            assert(state::sub_models(r@) =~= Self::fresh_states());
        }
        r
    }

    fn content(&self, s: usize, state: &mut Option<TableState>, width: usize, palette: &Palette) -> (r:
        Option<String>) {
        match &self.endpoints {
            Some(endpoints) => Some(types::join_endpoints(endpoints, "\n")),
            None => Some(nothing()),
        }
    }
}

/// The start and the end of a peer's identity in hexadecimal.
pub open spec fn short_id(id: PeerId) -> Seq<char> {
    let whole = types::hex_text(id.bytes@, Seq::empty());
    whole.subrange(0, 8) + ".."@ + whole.subrange(32, 40)
}

/// The start and the end of a peer's identity in hexadecimal.
fn show_short_id(id: &PeerId) -> (r: String)
    ensures
        r@ == short_id(*id),
{
    let whole = id.to_text();
    proof {
        types::lemma_hex_length(id.bytes@);
    }
    let chars = text::chars_of(whole.as_str());
    let mut r = text::string_of(&chars, 0, 8);
    r.append("..");
    let end = text::string_of(&chars, 32, 40);
    r.append(end.as_str());
    r
}

/// What a peer can do: fast messages, peer exchange, metadata and the hash table.
pub open spec fn peer_flags(p: PeerProgress) -> Seq<char> {
    seq![
        flag(p.supports_fast),
        ' ',
        flag(p.supports_pex),
        ' ',
        flag(p.supports_metadata),
        ' ',
        flag(p.supports_dht),
    ]
}

/// A cell of a peer's connection.
pub open spec fn connection_cell(p: ConnectionProgress, c: int, width: Option<usize>) -> Option<
    Seq<char>,
> {
    if c == 4 {
        bar_cell(p.piece_bitfield, width)
    } else if c == 5 {
        Some(two_flags(p.am_interested, p.peer_choking))
    } else if c == 6 {
        Some(number_cell(p.piece_cursor))
    } else if c == 7 {
        Some(number::decimal(p.pipeline as nat))
    } else if c == 8 {
        Some(number::decimal(p.timeout_rate as nat))
    } else if c == 9 {
        Some(number::decimal(p.reject_rate as nat))
    } else if c == 10 {
        Some(pretty::size_text(p.down_speed as nat))
    } else if c == 11 {
        Some(two_flags(p.peer_interested, p.am_choking))
    } else {
        Some(pretty::size_text(p.up_speed as nat))
    }
}

/// A cell of a peer's connection.
fn show_connection(p: &ConnectionProgress, c: usize, width: Option<usize>) -> (r: Option<String>)
    requires
        4 <= c <= 12,
    ensures
        match r {
            Some(t) => connection_cell(*p, c as int, width) == Some(t@),
            None => connection_cell(*p, c as int, width) is None,
        },
{
    match c {
        4 => show_bar(&p.piece_bitfield, width),
        5 => Some(show_two_flags(p.am_interested, p.peer_choking)),
        6 => Some(show_number(p.piece_cursor)),
        7 => Some(number::to_decimal(p.pipeline as u64)),
        8 => Some(number::to_decimal(p.timeout_rate as u64)),
        9 => Some(number::to_decimal(p.reject_rate as u64)),
        10 => Some(pretty::pretty_size(p.down_speed)),
        11 => Some(show_two_flags(p.peer_interested, p.am_choking)),
        _ => Some(pretty::pretty_size(p.up_speed)),
    }
}

impl Cells for PeerProgress {
    open spec fn column_models() -> Seq<ColumnModel> {
        seq![
            left(""@),
            left("Id"@),
            left("F P M D"@),
            ColumnModel { max_width: Some(18), ..left("Client"@) },
            flexible("Pieces"@, 1),
            left("I C"@),
            right("PC"@),
            right("PL"@),
            right("t/s"@),
            right("r/s"@),
            right("Down"@),
            left("I C"@),
            right("Up"@),
        ]
    }

    open spec fn cell(&self, c: int, width: Option<usize>) -> Option<Seq<char>> {
        if c == 0 {
            Some(Seq::empty())
        } else if c == 1 {
            Some(short_id(self.id))
        } else if c == 2 {
            Some(peer_flags(*self))
        } else if c == 3 {
            Some(
                match self.client {
                    Some(client) => client@,
                    None => Seq::empty(),
                },
            )
        } else {
            match self.connection {
                Some(connection) => connection_cell(connection, c, width),
                None => Some(Seq::empty()),
            }
        }
    }

    open spec fn total_cell(rows: Seq<&Self>, c: int) -> Option<Seq<char>> {
        None
    }

    fn columns() -> (r: Vec<Column>) {
        let mut r: Vec<Column> = Vec::new();
        r.push(left_column(""));
        r.push(left_column("Id"));
        r.push(left_column("F P M D"));
        let mut client = left_column("Client");
        client.max_width = Some(18);
        r.push(client);
        r.push(flexible_column("Pieces", 1));
        r.push(left_column("I C"));
        r.push(right_column("PC"));
        r.push(right_column("PL"));
        r.push(right_column("t/s"));
        r.push(right_column("r/s"));
        r.push(right_column("Down"));
        r.push(left_column("I C"));
        r.push(right_column("Up"));
        assert(layout::column_views(r@) =~= Self::column_models());
        r
    }

    fn value(&self, c: usize, width: Option<usize>) -> (r: Option<String>) {
        match c {
            0 => Some(nothing()),
            1 => Some(show_short_id(&self.id)),
            2 => {
                let mut r = String::new();
                r.push(to_flag(self.supports_fast));
                r.push(' ');
                r.push(to_flag(self.supports_pex));
                r.push(' ');
                r.push(to_flag(self.supports_metadata));
                r.push(' ');
                r.push(to_flag(self.supports_dht));
                assert(r@ =~= peer_flags(*self));
                Some(r)
            },
            3 => match &self.client {
                Some(client) => Some(client.clone()),
                None => Some(nothing()),
            },
            _ => match &self.connection {
                Some(connection) => show_connection(connection, c, width),
                None => Some(nothing()),
            },
        }
    }

    fn total(rows: &Vec<&Self>, c: usize) -> (r: Option<String>) {
        None
    }
}

impl Row for PeerProgress {
    open spec fn row_id(&self) -> RowHash {
        bytes_id(self.id.bytes@)
    }

    open spec fn section_models() -> Seq<SectionModel> {
        seq![
            SectionModel { header: "Errors"@, key: 'r', is_table: false },
            SectionModel { header: "Endpoints"@, key: 'e', is_table: false },
        ]
    }

    open spec fn shape() -> Shape {
        Shape { keys: seq!['r', 'e'], subs: seq![None, None] }
    }

    open spec fn fresh_states() -> Seq<Option<TableModel>> {
        seq![None, None]
    }

    open spec fn section_content(
        &self,
        s: int,
        state: Option<TableModel>,
        width: nat,
        palette: PaletteModel,
    ) -> Option<(Seq<char>, Option<TableModel>)> {
        Some(
            (
                if s == 0 {
                    text::joined(self@.errors, "\n"@)
                } else {
                    endpoint_lines(self@.endpoints)
                },
                state,
            ),
        )
    }

    proof fn law_shape() {
        assert(Self::shape().keys =~= table::section_keys(Self::section_models()));
        state::lemma_subs_fit(Self::fresh_states(), Self::shape().subs);
    }

    proof fn law_content_settles(
        &self,
        s: int,
        state: Option<TableModel>,
        width: nat,
        palette: PaletteModel,
    ) {
    }

    fn id(&self) -> (r: RowHash) {
        hash_bytes(self.id.bytes.as_slice())
    }

    fn sub_sections() -> (r: Vec<SubSection>) {
        let mut r: Vec<SubSection> = Vec::new();
        r.push(SubSection::Text(TextSubSection { header: "Errors".to_owned(), key: 'r' }));
        r.push(SubSection::Text(TextSubSection { header: "Endpoints".to_owned(), key: 'e' }));
        assert(table::section_views(r@) =~= Self::section_models());
        r
    }

    fn new_states() -> (r: Vec<Option<TableState>>) {
        let mut r: Vec<Option<TableState>> = Vec::new();
        r.push(None);
        r.push(None);
        proof {
            state::lemma_sub_models(r@);
            assert(state::sub_models(r@) =~= Self::fresh_states());
        }
        r
    }

    fn content(&self, s: usize, state: &mut Option<TableState>, width: usize, palette: &Palette) -> (r:
        Option<String>) {
        if s == 0 {
            assert(text::texts(self.errors@).skip(0) =~= text::texts(self.errors@));
            Some(text::join_from(&self.errors, 0, "\n"))
        } else {
            Some(types::join_endpoints(&self.endpoints, "\n"))
        }
    }
}

impl Cells for FileInfo {
    open spec fn column_models() -> Seq<ColumnModel> {
        seq![left("Relative path"@), right("Size"@)]
    }

    open spec fn cell(&self, c: int, width: Option<usize>) -> Option<Seq<char>> {
        Some(
            if c == 0 {
                self.relative_path@
            } else {
                pretty::size_text(self.size as nat)
            },
        )
    }

    open spec fn total_cell(rows: Seq<&Self>, c: int) -> Option<Seq<char>> {
        None
    }

    fn columns() -> (r: Vec<Column>) {
        let mut r: Vec<Column> = Vec::new();
        r.push(left_column("Relative path"));
        r.push(right_column("Size"));
        assert(layout::column_views(r@) =~= Self::column_models());
        r
    }

    fn value(&self, c: usize, width: Option<usize>) -> (r: Option<String>) {
        if c == 0 {
            Some(self.relative_path.clone())
        } else {
            Some(pretty::pretty_size(self.size))
        }
    }

    fn total(rows: &Vec<&Self>, c: usize) -> (r: Option<String>) {
        None
    }
}

/// No section, and so no memory of any.
pub open spec fn bare_shape() -> Shape {
    Shape { keys: Seq::empty(), subs: Seq::empty() }
}

impl Row for FileInfo {
    open spec fn row_id(&self) -> RowHash {
        text_id(self.relative_path@)
    }

    open spec fn section_models() -> Seq<SectionModel> {
        Seq::empty()
    }

    open spec fn shape() -> Shape {
        bare_shape()
    }

    open spec fn fresh_states() -> Seq<Option<TableModel>> {
        Seq::empty()
    }

    open spec fn section_content(
        &self,
        s: int,
        state: Option<TableModel>,
        width: nat,
        palette: PaletteModel,
    ) -> Option<(Seq<char>, Option<TableModel>)> {
        Some((Seq::empty(), state))
    }

    proof fn law_shape() {
        assert(Self::shape().keys =~= table::section_keys(Self::section_models()));
    }

    proof fn law_content_settles(
        &self,
        s: int,
        state: Option<TableModel>,
        width: nat,
        palette: PaletteModel,
    ) {
    }

    fn id(&self) -> (r: RowHash) {
        hash_text(self.relative_path.as_str())
    }

    fn sub_sections() -> (r: Vec<SubSection>) {
        let r: Vec<SubSection> = Vec::new();
        assert(table::section_views(r@) =~= Self::section_models());
        r
    }

    fn new_states() -> (r: Vec<Option<TableState>>) {
        Vec::new()
    }

    fn content(&self, s: usize, state: &mut Option<TableState>, width: usize, palette: &Palette) -> (r:
        Option<String>) {
        Some(nothing())
    }
}

impl flat_table::Row for FileInfo {
    open spec fn section_names() -> Seq<Seq<char>> {
        Seq::empty()
    }

    open spec fn sub_text(&self, width: nat) -> Seq<char> {
        Seq::empty()
    }

    fn sub_sections() -> (r: Vec<String>) {
        let r: Vec<String> = Vec::new();
        assert(text::texts(r@) =~= Seq::empty());
        r
    }

    fn display_sub(&self, width: usize) -> (r: String) {
        nothing()
    }
}

/// What a number is known by.
pub open spec fn number_id(n: usize) -> RowHash {
    DefaultHasher::spec_finish(seq![number::native_of(n)])
}

/// What a number is known by.
fn hash_number(n: usize) -> (r: RowHash)
    ensures
        r == number_id(n),
{
    let mut hasher = DefaultHasher::new();
    let bytes = number::native_bytes(n);
    hasher.write(bytes.as_slice());
    assert(hasher@ =~= seq![number::native_of(n)]);
    hasher.finish()
}

impl Cells for PieceProgress {
    open spec fn column_models() -> Seq<ColumnModel> {
        seq![left("Idx"@), flexible("Blocks"@, 1), right("%"@), right("Num"@), right("Tot"@)]
    }

    open spec fn cell(&self, c: int, width: Option<usize>) -> Option<Seq<char>> {
        if c == 0 {
            Some(number::decimal(self.index as nat))
        } else if c == 1 {
            bar_cell(self.block_bitfield, width)
        } else if c == 2 {
            Some(self.percentage@)
        } else if c == 3 {
            Some(number::decimal(self.num_obtained_blocks as nat))
        } else {
            Some(number::decimal(self.num_blocks as nat))
        }
    }

    open spec fn total_cell(rows: Seq<&Self>, c: int) -> Option<Seq<char>> {
        None
    }

    fn columns() -> (r: Vec<Column>) {
        let mut r: Vec<Column> = Vec::new();
        r.push(left_column("Idx"));
        r.push(flexible_column("Blocks", 1));
        r.push(right_column("%"));
        r.push(right_column("Num"));
        r.push(right_column("Tot"));
        assert(layout::column_views(r@) =~= Self::column_models());
        r
    }

    fn value(&self, c: usize, width: Option<usize>) -> (r: Option<String>) {
        match c {
            0 => Some(number::to_decimal(self.index as u64)),
            1 => show_bar(&self.block_bitfield, width),
            2 => Some(self.percentage.clone()),
            3 => Some(number::to_decimal(self.num_obtained_blocks as u64)),
            _ => Some(number::to_decimal(self.num_blocks as u64)),
        }
    }

    fn total(rows: &Vec<&Self>, c: usize) -> (r: Option<String>) {
        None
    }
}

impl Row for PieceProgress {
    open spec fn row_id(&self) -> RowHash {
        number_id(self.index)
    }

    open spec fn section_models() -> Seq<SectionModel> {
        Seq::empty()
    }

    open spec fn shape() -> Shape {
        bare_shape()
    }

    open spec fn fresh_states() -> Seq<Option<TableModel>> {
        Seq::empty()
    }

    open spec fn section_content(
        &self,
        s: int,
        state: Option<TableModel>,
        width: nat,
        palette: PaletteModel,
    ) -> Option<(Seq<char>, Option<TableModel>)> {
        Some((Seq::empty(), state))
    }

    proof fn law_shape() {
        assert(Self::shape().keys =~= table::section_keys(Self::section_models()));
    }

    proof fn law_content_settles(
        &self,
        s: int,
        state: Option<TableModel>,
        width: nat,
        palette: PaletteModel,
    ) {
    }

    fn id(&self) -> (r: RowHash) {
        hash_number(self.index)
    }

    fn sub_sections() -> (r: Vec<SubSection>) {
        let r: Vec<SubSection> = Vec::new();
        assert(table::section_views(r@) =~= Self::section_models());
        r
    }

    fn new_states() -> (r: Vec<Option<TableState>>) {
        Vec::new()
    }

    fn content(&self, s: usize, state: &mut Option<TableState>, width: usize, palette: &Palette) -> (r:
        Option<String>) {
        Some(nothing())
    }
}

/// How long a torrent's transfer takes, if it is under way; nothing can be said
/// where more has come than there is.
pub open spec fn eta_of(p: Progress) -> Option<Option<u64>> {
    match p.transfer {
        Some(t) => if t.down_speed != 0 && t.downloaded > t.size {
            None
        } else {
            Some(control::seconds_left(t.size, t.downloaded, t.down_speed))
        },
        None => Some(None),
    }
}

/// What a torrent adds to the total of a column.
pub open spec fn amount(p: Progress, c: int) -> nat {
    if c == 1 {
        p.num_connected_peers as nat
    } else {
        match p.transfer {
            Some(t) => if c == 2 {
                t.down_speed as nat
            } else {
                t.up_speed as nat
            },
            None => 0,
        }
    }
}

/// The total of a column.
pub open spec fn sum_of(rows: Seq<&Progress>, c: int) -> nat
    decreases rows.len(),
{
    if rows.len() == 0 {
        0
    } else {
        sum_of(rows.drop_last(), c) + amount(*rows.last(), c)
    }
}

/// The longest of the times that torrents take, if any is known.
pub open spec fn longest_eta(rows: Seq<&Progress>) -> Option<Option<u64>>
    decreases rows.len(),
{
    if rows.len() == 0 {
        Some(None)
    } else {
        match (longest_eta(rows.drop_last()), eta_of(*rows.last())) {
            (Some(before), Some(eta)) => Some(tracker::larger(before, eta)),
            _ => None,
        }
    }
}

/// How long a torrent's transfer takes.
fn find_eta(p: &Progress) -> (r: Option<Option<u64>>)
    ensures
        r == eta_of(*p),
{
    match &p.transfer {
        Some(t) => if t.down_speed != 0 && t.downloaded > t.size {
            None
        } else {
            Some(t.eta())
        },
        None => Some(None),
    }
}

proof fn lemma_sum_prefix(rows: Seq<&Progress>, c: int, n: int)
    requires
        0 <= n <= rows.len(),
    ensures
        sum_of(rows.take(n), c) <= sum_of(rows, c),
    decreases rows.len(),
{
    if n < rows.len() {
        lemma_sum_prefix(rows.drop_last(), c, n);
        assert(rows.drop_last().take(n) =~= rows.take(n));
    } else {
        assert(rows.take(n) =~= rows);
    }
}

proof fn lemma_eta_missing(rows: Seq<&Progress>, n: int)
    requires
        0 <= n <= rows.len(),
        longest_eta(rows.take(n)) is None,
    ensures
        longest_eta(rows) is None,
    decreases rows.len(),
{
    if n < rows.len() {
        assert(rows.drop_last().take(n) =~= rows.take(n));
        lemma_eta_missing(rows.drop_last(), n);
    } else {
        assert(rows.take(n) =~= rows);
    }
}

/// The total of a column, unless it is too large to count.
fn sum_column(rows: &Vec<&Progress>, c: usize) -> (r: Option<usize>)
    requires
        1 <= c <= 3,
    ensures
        match r {
            Some(n) => n == sum_of(rows@, c as int),
            None => sum_of(rows@, c as int) > usize::MAX,
        },
{
    let mut n: usize = 0;
    let mut i: usize = 0;
    assert(rows@.take(0) =~= Seq::empty());
    while i < rows.len()
        invariant
            i <= rows@.len(),
            1 <= c <= 3,
            n == sum_of(rows@.take(i as int), c as int),
        decreases rows@.len() - i,
    {
        proof {
            assert(rows@.take(i as int + 1).drop_last() =~= rows@.take(i as int));
            assert(rows@.take(i as int + 1).last() == rows@[i as int]);
            lemma_sum_prefix(rows@, c as int, i as int + 1);
        }
        let more = if c == 1 {
            rows[i].num_connected_peers
        } else {
            match &rows[i].transfer {
                Some(t) => if c == 2 {
                    t.down_speed
                } else {
                    t.up_speed
                },
                None => 0,
            }
        };
        if more > usize::MAX - n {
            return None;
        }
        n += more;
        i += 1;
    }
    assert(rows@.take(i as int) =~= rows@);
    Some(n)
}

/// The longest of the times that torrents take.
fn find_longest_eta(rows: &Vec<&Progress>) -> (r: Option<Option<u64>>)
    ensures
        r == longest_eta(rows@),
{
    let mut longest: Option<u64> = None;
    let mut i: usize = 0;
    assert(rows@.take(0) =~= Seq::empty());
    while i < rows.len()
        invariant
            i <= rows@.len(),
            longest_eta(rows@.take(i as int)) == Some(longest),
        decreases rows@.len() - i,
    {
        proof {
            assert(rows@.take(i as int + 1).drop_last() =~= rows@.take(i as int));
            assert(rows@.take(i as int + 1).last() == rows@[i as int]);
        }
        match find_eta(rows[i]) {
            Some(eta) => {
                longest = tracker::find_larger(longest, eta);
            },
            None => {
                proof {
                    lemma_eta_missing(rows@, i as int + 1);
                }
                return None;
            },
        }
        i += 1;
    }
    assert(rows@.take(i as int) =~= rows@);
    Some(longest)
}

/// A cell of a torrent's transfer.
pub open spec fn transfer_cell(t: TransferProgress, c: int) -> Seq<char> {
    if c == 2 {
        pretty::size_text(t.down_speed as nat)
    } else if c == 3 {
        pretty::size_text(t.up_speed as nat)
    } else if c == 5 {
        pretty::size_text(t.size as nat)
    } else {
        t.percentage@
    }
}

/// A cell of a torrent's transfer; an empty one where there is none.
fn show_transfer(t: &Option<TransferProgress>, c: usize) -> (r: String)
    ensures
        r@ == match *t {
            Some(t) => transfer_cell(t, c as int),
            None => Seq::empty(),
        },
{
    match t {
        Some(t) => match c {
            2 => pretty::pretty_size(t.down_speed),
            3 => pretty::pretty_size(t.up_speed),
            5 => pretty::pretty_size(t.size),
            _ => t.percentage.clone(),
        },
        None => nothing(),
    }
}

impl Cells for Progress {
    open spec fn column_models() -> Seq<ColumnModel> {
        seq![
            left(""@),
            summed("Con"@),
            summed("Down"@),
            summed("Up"@),
            flexible("Name"@, 3),
            right("Size"@),
            flexible("Pieces"@, 1),
            right("%"@),
            summed("ETA"@),
        ]
    }

    open spec fn cell(&self, c: int, width: Option<usize>) -> Option<Seq<char>> {
        if c == 0 {
            Some("▶"@)
        } else if c == 1 {
            Some(number::decimal(self.num_connected_peers as nat))
        } else if c == 4 {
            Some(self.display_name@)
        } else if c == 6 {
            match self.transfer {
                Some(t) => bar_cell(t.piece_bitfield, width),
                None => bar_cell(self.metadata_bitfield, width),
            }
        } else if c == 8 {
            match eta_of(*self) {
                Some(eta) => Some(duration_cell(eta)),
                None => None,
            }
        } else {
            Some(
                match self.transfer {
                    Some(t) => transfer_cell(t, c),
                    None => Seq::empty(),
                },
            )
        }
    }

    open spec fn total_cell(rows: Seq<&Self>, c: int) -> Option<Seq<char>> {
        if c == 8 {
            match longest_eta(rows) {
                Some(eta) => Some(duration_cell(eta)),
                None => None,
            }
        } else if c < 1 || c > 3 || sum_of(rows, c) > usize::MAX {
            None
        } else if c == 1 {
            Some(number::decimal(sum_of(rows, c)))
        } else {
            Some(pretty::size_text(sum_of(rows, c)))
        }
    }

    fn columns() -> (r: Vec<Column>) {
        let mut r: Vec<Column> = Vec::new();
        r.push(left_column(""));
        r.push(summed_column("Con"));
        r.push(summed_column("Down"));
        r.push(summed_column("Up"));
        r.push(flexible_column("Name", 3));
        r.push(right_column("Size"));
        r.push(flexible_column("Pieces", 1));
        r.push(right_column("%"));
        r.push(summed_column("ETA"));
        assert(layout::column_views(r@) =~= Self::column_models());
        r
    }

    fn value(&self, c: usize, width: Option<usize>) -> (r: Option<String>) {
        match c {
            0 => Some("▶".to_owned()),
            1 => Some(number::to_decimal(self.num_connected_peers as u64)),
            4 => Some(self.display_name.clone()),
            6 => match &self.transfer {
                Some(t) => show_bar(&t.piece_bitfield, width),
                None => show_bar(&self.metadata_bitfield, width),
            },
            8 => match find_eta(self) {
                Some(eta) => Some(show_duration(eta)),
                None => None,
            },
            _ => Some(show_transfer(&self.transfer, c)),
        }
    }

    fn total(rows: &Vec<&Self>, c: usize) -> (r: Option<String>) {
        match c {
            1 => match sum_column(rows, c) {
                Some(n) => Some(number::to_decimal(n as u64)),
                None => None,
            },
            2 | 3 => match sum_column(rows, c) {
                Some(n) => Some(pretty::pretty_size(n)),
                None => None,
            },
            8 => match find_longest_eta(rows) {
                Some(eta) => Some(show_duration(eta)),
                None => None,
            },
            _ => None,
        }
    }
}

/// A table within a section, if it can be shown, and what it remembers then.
#[verifier::opaque]
pub open spec fn nested<S: Row>(
    rows: Seq<&S>,
    state: Option<TableModel>,
    width: nat,
    palette: PaletteModel,
) -> Option<(Seq<char>, Option<TableModel>)> {
    match state {
        Some(m) => match table::rendered(rows, 1, m, width, palette) {
            Some((t, m)) => Some((t, Some(m))),
            None => None,
        },
        None => None,
    }
}

/// A table within a section whose rows have no table within them, shown again,
/// shows the same and remembers the same.
proof fn lemma_nested_settles<S: Row>(
    rows: Seq<&S>,
    state: Option<TableModel>,
    width: nat,
    palette: PaletteModel,
)
    requires
        state::sub_fits(state, Some(S::shape())),
        forall|s: int| 0 <= s < S::shape().subs.len() ==> #[trigger] S::shape().subs[s] is None,
    ensures
        nested(rows, state, width, palette) matches Some((t, after)) ==> {
            &&& state::sub_fits(after, Some(S::shape()))
            &&& nested(rows, after, width, palette) == Some((t, after))
        },
{
    reveal(nested);
    table::laws::law_render_twice(rows, 1, state->0, width, palette);
}

/// A table within a section, if it can be shown.
fn show_nested<S: Row>(
    rows: &Vec<&S>,
    state: &mut Option<TableState>,
    width: usize,
    palette: &Palette,
) -> (r: Option<String>)
    requires
        state::sub_fits(state::sub_model(*old(state)), Some(S::shape())),
        layout::flex_sum(S::column_models(), S::column_models().len()) <= usize::MAX,
    ensures
        state::sub_fits(state::sub_model(*final(state)), Some(S::shape())),
        match r {
            Some(t) => nested(rows@, state::sub_model(*old(state)), width as nat, palette@) == Some(
                (t@, state::sub_model(*final(state))),
            ),
            None => nested(rows@, state::sub_model(*old(state)), width as nat, palette@) is None,
        },
{
    reveal(nested);
    let table = Table::<S>::new(1);
    if let Some(state) = state {
        table.render_with(rows, state, width, palette)
    } else {
        None
    }
}

/// References to the items of a list.
pub open spec fn refs<'a, T>(s: Seq<T>) -> Seq<&'a T> {
    Seq::new(s.len(), |i: int| &s[i])
}

/// References to the items of a list.
fn collect_refs<'a, T>(s: &'a Vec<T>) -> (r: Vec<&'a T>)
    ensures
        r@ == refs(s@),
{
    let mut r: Vec<&'a T> = Vec::new();
    let mut i: usize = 0;
    while i < s.len()
        invariant
            i <= s@.len(),
            r@.len() == i,
            forall|j: int| 0 <= j < i ==> *(#[trigger] r@[j]) == s@[j],
        decreases s@.len() - i,
    {
        r.push(&s[i]);
        i += 1;
    }
    assert(r@ =~= refs(s@));
    r
}

/// References to the values of a map.
pub open spec fn value_refs<'a, V>(s: Seq<(PeerId, V)>) -> Seq<&'a V> {
    Seq::new(s.len(), |i: int| &s[i].1)
}

/// References to the values of a map.
fn collect_values<'a, V>(map: &'a PeerMap<V>) -> (r: Vec<&'a V>)
    ensures
        r@ == value_refs(map@),
{
    let mut r: Vec<&'a V> = Vec::new();
    let mut i: usize = 0;
    while i < map.entries.len()
        invariant
            i <= map@.len(),
            r@.len() == i,
            forall|j: int| 0 <= j < i ==> *(#[trigger] r@[j]) == map@[j].1,
        decreases map@.len() - i,
    {
        r.push(&map.entries[i].1);
        i += 1;
    }
    assert(r@ =~= value_refs(map@));
    r
}

/// The shares of the columns can be counted.
proof fn lemma_flex_counted()
    ensures
        layout::flex_sum(FileInfo::column_models(), 2) == 0,
        layout::flex_sum(PieceProgress::column_models(), 5) == 1,
        layout::flex_sum(PeerProgress::column_models(), 13) == 1,
        layout::flex_sum(TrackerInfo::column_models(), 8) == 0,
{
    reveal_with_fuel(layout::flex_sum, 14);
}

/// The table of a torrent's files, if it can be shown.
fn show_files(
    files: &Vec<FileInfo>,
    state: &mut Option<TableState>,
    width: usize,
    palette: &Palette,
) -> (r: Option<String>)
    requires
        state::sub_fits(state::sub_model(*old(state)), Some(FileInfo::shape())),
    ensures
        state::sub_fits(state::sub_model(*final(state)), Some(FileInfo::shape())),
        match r {
            Some(t) => nested(
                refs(files@),
                state::sub_model(*old(state)),
                width as nat,
                palette@,
            ) == Some((t@, state::sub_model(*final(state)))),
            None => nested(
                refs(files@),
                state::sub_model(*old(state)),
                width as nat,
                palette@,
            ) is None,
        },
{
    proof {
        lemma_flex_counted();
        assert(FileInfo::column_models().len() == 2);
    }
    show_nested(&collect_refs(files), state, width, palette)
}

/// The table of the pieces that are being downloaded, if it can be shown.
fn show_pieces(
    pieces: &Vec<PieceProgress>,
    state: &mut Option<TableState>,
    width: usize,
    palette: &Palette,
) -> (r: Option<String>)
    requires
        state::sub_fits(state::sub_model(*old(state)), Some(PieceProgress::shape())),
    ensures
        state::sub_fits(state::sub_model(*final(state)), Some(PieceProgress::shape())),
        match r {
            Some(t) => nested(
                refs(pieces@),
                state::sub_model(*old(state)),
                width as nat,
                palette@,
            ) == Some((t@, state::sub_model(*final(state)))),
            None => nested(
                refs(pieces@),
                state::sub_model(*old(state)),
                width as nat,
                palette@,
            ) is None,
        },
{
    proof {
        lemma_flex_counted();
        assert(PieceProgress::column_models().len() == 5);
    }
    show_nested(&collect_refs(pieces), state, width, palette)
}

/// The table of a torrent's peers, if it can be shown.
fn show_peers(
    peers: &PeerMap<PeerProgress>,
    state: &mut Option<TableState>,
    width: usize,
    palette: &Palette,
) -> (r: Option<String>)
    requires
        state::sub_fits(state::sub_model(*old(state)), Some(PeerProgress::shape())),
    ensures
        state::sub_fits(state::sub_model(*final(state)), Some(PeerProgress::shape())),
        match r {
            Some(t) => nested(
                value_refs(peers@),
                state::sub_model(*old(state)),
                width as nat,
                palette@,
            ) == Some((t@, state::sub_model(*final(state)))),
            None => nested(
                value_refs(peers@),
                state::sub_model(*old(state)),
                width as nat,
                palette@,
            ) is None,
        },
{
    proof {
        lemma_flex_counted();
        assert(PeerProgress::column_models().len() == 13);
    }
    show_nested(&collect_values(peers), state, width, palette)
}

/// The table of a torrent's trackers, if it can be shown.
fn show_trackers(
    trackers: &Vec<TrackerInfo>,
    state: &mut Option<TableState>,
    width: usize,
    palette: &Palette,
) -> (r: Option<String>)
    requires
        state::sub_fits(state::sub_model(*old(state)), Some(TrackerInfo::shape())),
    ensures
        state::sub_fits(state::sub_model(*final(state)), Some(TrackerInfo::shape())),
        match r {
            Some(t) => nested(
                refs(trackers@),
                state::sub_model(*old(state)),
                width as nat,
                palette@,
            ) == Some((t@, state::sub_model(*final(state)))),
            None => nested(
                refs(trackers@),
                state::sub_model(*old(state)),
                width as nat,
                palette@,
            ) is None,
        },
{
    proof {
        lemma_flex_counted();
        assert(TrackerInfo::column_models().len() == 8);
    }
    show_nested(&collect_refs(trackers), state, width, palette)
}

impl Row for Progress {
    open spec fn row_id(&self) -> RowHash {
        text_id(self.display_name@)
    }

    open spec fn section_models() -> Seq<SectionModel> {
        seq![
            SectionModel { header: "Files"@, key: 'f', is_table: true },
            SectionModel { header: "Blocks"@, key: 'b', is_table: true },
            SectionModel { header: "Peers"@, key: 'p', is_table: true },
            SectionModel { header: "Trackers"@, key: 't', is_table: true },
        ]
    }

    open spec fn shape() -> Shape {
        Shape {
            keys: seq!['f', 'b', 'p', 't'],
            subs: seq![
                Some(FileInfo::shape()),
                Some(PieceProgress::shape()),
                Some(PeerProgress::shape()),
                Some(TrackerInfo::shape()),
            ],
        }
    }

    open spec fn fresh_states() -> Seq<Option<TableModel>> {
        seq![
            Some(table::fresh_table::<FileInfo>(false)),
            Some(table::fresh_table::<PieceProgress>(false)),
            Some(table::fresh_table::<PeerProgress>(false)),
            Some(table::fresh_table::<TrackerInfo>(false)),
        ]
    }

    open spec fn section_content(
        &self,
        s: int,
        state: Option<TableModel>,
        width: nat,
        palette: PaletteModel,
    ) -> Option<(Seq<char>, Option<TableModel>)> {
        if s == 0 {
            match self.transfer {
                Some(t) => nested(refs(t.files@), state, width, palette),
                None => Some((Seq::empty(), state)),
            }
        } else if s == 1 {
            match self.transfer {
                Some(t) => nested(refs(t.active_pieces@), state, width, palette),
                None => Some((Seq::empty(), state)),
            }
        } else if s == 2 {
            nested(value_refs(self.peers@), state, width, palette)
        } else {
            nested(refs(self.trackers@), state, width, palette)
        }
    }

    proof fn law_shape() {
        assert(Self::shape().keys =~= table::section_keys(Self::section_models()));
        table::law_fresh_fits::<FileInfo>(false);
        table::law_fresh_fits::<PieceProgress>(false);
        table::law_fresh_fits::<PeerProgress>(false);
        table::law_fresh_fits::<TrackerInfo>(false);
        state::lemma_subs_fit(Self::fresh_states(), Self::shape().subs);
    }

    proof fn law_content_settles(
        &self,
        s: int,
        state: Option<TableModel>,
        width: nat,
        palette: PaletteModel,
    ) {
        if s == 0 {
            assert(Self::shape().subs[0] == Some(FileInfo::shape()));
            if let Some(t) = self.transfer {
                lemma_nested_settles(refs(t.files@), state, width, palette);
            }
        } else if s == 1 {
            assert(Self::shape().subs[1] == Some(PieceProgress::shape()));
            if let Some(t) = self.transfer {
                lemma_nested_settles(refs(t.active_pieces@), state, width, palette);
            }
        } else if s == 2 {
            assert(Self::shape().subs[2] == Some(PeerProgress::shape()));
            lemma_nested_settles(value_refs(self.peers@), state, width, palette);
        } else {
            assert(Self::shape().subs[3] == Some(TrackerInfo::shape()));
            lemma_nested_settles(refs(self.trackers@), state, width, palette);
        }
    }

    fn id(&self) -> (r: RowHash) {
        hash_text(self.display_name.as_str())
    }

    fn sub_sections() -> (r: Vec<SubSection>) {
        let mut r: Vec<SubSection> = Vec::new();
        r.push(SubSection::Table(TableSubSection { header: "Files".to_owned(), key: 'f' }));
        r.push(SubSection::Table(TableSubSection { header: "Blocks".to_owned(), key: 'b' }));
        r.push(SubSection::Table(TableSubSection { header: "Peers".to_owned(), key: 'p' }));
        r.push(SubSection::Table(TableSubSection { header: "Trackers".to_owned(), key: 't' }));
        assert(table::section_views(r@) =~= Self::section_models());
        r
    }

    fn new_states() -> (r: Vec<Option<TableState>>) {
        let mut r: Vec<Option<TableState>> = Vec::new();
        r.push(Some(TableState::new::<FileInfo>(false)));
        r.push(Some(TableState::new::<PieceProgress>(false)));
        r.push(Some(TableState::new::<PeerProgress>(false)));
        r.push(Some(TableState::new::<TrackerInfo>(false)));
        proof {
            state::lemma_sub_models(r@);
            assert(state::sub_models(r@) =~= Self::fresh_states());
        }
        r
    }

    fn content(&self, s: usize, state: &mut Option<TableState>, width: usize, palette: &Palette) -> (r:
        Option<String>) {
        match s {
            0 => {
                assert(Self::shape().subs[0] == Some(FileInfo::shape()));
                match &self.transfer {
                    Some(t) => show_files(&t.files, state, width, palette),
                    None => Some(nothing()),
                }
            },
            1 => {
                assert(Self::shape().subs[1] == Some(PieceProgress::shape()));
                match &self.transfer {
                    Some(t) => show_pieces(&t.active_pieces, state, width, palette),
                    None => Some(nothing()),
                }
            },
            2 => {
                assert(Self::shape().subs[2] == Some(PeerProgress::shape()));
                show_peers(&self.peers, state, width, palette)
            },
            _ => {
                assert(Self::shape().subs[3] == Some(TrackerInfo::shape()));
                show_trackers(&self.trackers, state, width, palette)
            },
        }
    }
}

/// The table of torrents can be made: the shares of its columns can be counted.
pub proof fn lemma_torrent_columns()
    ensures
        layout::flex_sum(Progress::column_models(), Progress::column_models().len()) == 4,
{
    reveal_with_fuel(layout::flex_sum, 10);
}

} // verus!
