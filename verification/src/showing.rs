//! What may be expected of what is shown: numbers that people can take at their
//! word, and columns that show what their headers say.

use crate::number;
use crate::pretty;
use crate::rows;
use crate::style::PaletteModel;
use crate::table::layout::Cells;
use crate::table::state::TableModel;
use crate::table::Row;
use crate::text;
use crate::torrent::control::{
    FileInfo, PeerProgress, PieceProgress, Progress, TrackerInfo,
};
use vstd::prelude::*;

verus! {

/// The time that a torrent takes is known: there is a transfer, and something
/// comes in.
pub open spec fn takes(p: Progress, seconds: u64) -> bool {
    p.transfer matches Some(t) && t.down_speed > 0 && seconds * t.down_speed <= t.size
        - t.downloaded < (seconds + 1) * t.down_speed
}

/// The time left of a torrent is how long the rest takes at the present speed, in
/// whole seconds; it is known exactly where something comes in.
pub proof fn law_time_left(p: Progress)
    requires
        p.transfer matches Some(t) ==> t.downloaded <= t.size,
    ensures
        rows::eta_of(p) matches Some(eta) && match eta {
            Some(seconds) => takes(p, seconds),
            None => p.transfer is None || p.transfer->0.down_speed == 0,
        },
{
    if let Some(t) = p.transfer {
        let left = t.size - t.downloaded;
        let d = t.down_speed as int;
        if d > 0 {
            let q = left / d;
            assert(q * d <= left < (q + 1) * d && 0 <= q <= left) by (nonlinear_arith)
                requires
                    q == left / d,
                    d > 0,
                    left >= 0,
            ;
        }
    }
}

/// The time of several torrents is that of the one that takes longest: no torrent
/// whose time is known takes longer, some torrent takes as long, and there is
/// none exactly where no torrent's time is known.
pub proof fn law_total_time(torrents: Seq<&Progress>)
    requires
        forall|i: int|
            0 <= i < torrents.len() ==> ((#[trigger] torrents[i]).transfer matches Some(t)
                ==> t.downloaded <= t.size),
    ensures
        rows::longest_eta(torrents) matches Some(total) && {
            &&& forall|i: int, x: u64|
                0 <= i < torrents.len() && #[trigger] takes(*torrents[i], x) ==> (total matches Some(
                    y,
                ) && x <= y)
            &&& total matches Some(y) ==> exists|i: int|
                0 <= i < torrents.len() && #[trigger] takes(*torrents[i], y)
        },
    decreases torrents.len(),
{
    if torrents.len() > 0 {
        let rest = torrents.drop_last();
        let last = torrents.len() - 1;
        assert forall|i: int| 0 <= i < rest.len() implies ((#[trigger] rest[i]).transfer matches Some(
            t,
        ) ==> t.downloaded <= t.size) by {
            assert(rest[i] == torrents[i]);
        }
        law_total_time(rest);
        law_time_left(*torrents[last]);
        let before = rows::longest_eta(rest)->0;
        let total = rows::longest_eta(torrents)->0;
        let own = rows::eta_of(*torrents[last])->0;
        assert forall|i: int, x: u64|
            0 <= i < torrents.len() && #[trigger] takes(*torrents[i], x) implies (total matches Some(
            y,
        ) && x <= y) by {
            if i < last {
                assert(takes(*rest[i], x));
            } else {
                assert(own is Some);
                lemma_one_time(*torrents[last], x, own->0);
            }
        }
        if let Some(y) = total {
            if own == Some(y) {
                assert(takes(*torrents[last], y));
            } else {
                assert(before == Some(y));
                let i = choose|i: int| 0 <= i < rest.len() && #[trigger] takes(*rest[i], y);
                assert(takes(*torrents[i], y));
            }
        }
    }
}

proof fn lemma_one_time(p: Progress, x: u64, y: u64)
    requires
        takes(p, x),
        takes(p, y),
    ensures
        x == y,
{
    let t = p.transfer->0;
    let d = t.down_speed as int;
    assert(x == y) by (nonlinear_arith)
        requires
            d > 0,
            x * d < (y + 1) * d,
            y * d < (x + 1) * d,
    ;
}

/// The total of a column over two lists of torrents is the totals of both taken
/// together, that of one torrent is what it shows itself, and the order of the
/// torrents does not matter.
pub proof fn law_totals(a: Seq<&Progress>, b: Seq<&Progress>, c: int)
    ensures
        rows::sum_of(a + b, c) == rows::sum_of(a, c) + rows::sum_of(b, c),
        rows::sum_of(a + b, c) == rows::sum_of(b + a, c),
        a.len() == 1 && (1 <= c <= 3 || c == 8) && a[0].transfer is Some ==> Progress::total_cell(
            a,
            c,
        ) == a[0].cell(c, None),
{
    lemma_sum_of(a, b, c);
    lemma_sum_of(b, a, c);
    if a.len() == 1 {
        assert(a.drop_last() =~= Seq::empty());
        assert(rows::sum_of(a.drop_last(), c) == 0);
        assert(rows::longest_eta(a.drop_last()) == Some(None::<u64>));
    }
}

proof fn lemma_sum_of(a: Seq<&Progress>, b: Seq<&Progress>, c: int)
    ensures
        rows::sum_of(a + b, c) == rows::sum_of(a, c) + rows::sum_of(b, c),
    decreases b.len(),
{
    if b.len() > 0 {
        lemma_sum_of(a, b.drop_last(), c);
        assert((a + b).drop_last() =~= a + b.drop_last());
        assert((a + b).last() == b.last());
    } else {
        assert(a + b =~= a);
    }
}

/// A torrent's columns show what their headers say.
pub proof fn law_torrent_columns(p: Progress, width: Option<usize>)
    ensures
        ({
            let named = |c: int, header: Seq<char>, text: Seq<char>|
                Progress::column_models()[c].header == header && p.cell(c, width) == Some(text);
            &&& Progress::column_models().len() == 9
            &&& named(1, "Con"@, number::decimal(p.num_connected_peers as nat))
            &&& named(4, "Name"@, p.display_name@)
            &&& p.transfer matches Some(t) ==> {
                &&& named(2, "Down"@, pretty::size_text(t.down_speed as nat))
                &&& named(3, "Up"@, pretty::size_text(t.up_speed as nat))
                &&& named(5, "Size"@, pretty::size_text(t.size as nat))
                &&& named(7, "%"@, t.percentage@)
                &&& width is Some && t.piece_bitfield.wf() ==> named(
                    6,
                    "Pieces"@,
                    pretty::bar(t.piece_bitfield@, width->0 as nat),
                )
            }
            &&& p.transfer is None ==> {
                &&& named(2, "Down"@, Seq::empty())
                &&& named(3, "Up"@, Seq::empty())
                &&& width is Some && p.metadata_bitfield.wf() ==> named(
                    6,
                    "Pieces"@,
                    pretty::bar(p.metadata_bitfield@, width->0 as nat),
                )
            }
            &&& Progress::column_models()[8].header == "ETA"@
        }),
{
}

/// A peer's columns show what their headers say. Its first two flags are whether
/// the peer is of interest and whether it chokes, its last two whether it is
/// interested and whether it is choked.
pub proof fn law_peer_columns(p: PeerProgress, width: Option<usize>)
    ensures
        ({
            let named = |c: int, header: Seq<char>, text: Seq<char>|
                PeerProgress::column_models()[c].header == header && p.cell(c, width) == Some(text);
            let on = |b: bool|
                if b {
                    '■'
                } else {
                    '□'
                };
            &&& PeerProgress::column_models().len() == 13
            &&& named(
                2,
                "F P M D"@,
                seq![
                    on(p.supports_fast),
                    ' ',
                    on(p.supports_pex),
                    ' ',
                    on(p.supports_metadata),
                    ' ',
                    on(p.supports_dht),
                ],
            )
            &&& p.client is Some ==> named(3, "Client"@, p.client->0@)
            &&& p.connection matches Some(c) ==> {
                &&& named(5, "I C"@, seq![on(c.am_interested), ' ', on(c.peer_choking)])
                &&& named(11, "I C"@, seq![on(c.peer_interested), ' ', on(c.am_choking)])
                &&& named(7, "PL"@, number::decimal(c.pipeline as nat))
                &&& named(8, "t/s"@, number::decimal(c.timeout_rate as nat))
                &&& named(9, "r/s"@, number::decimal(c.reject_rate as nat))
                &&& named(10, "Down"@, pretty::size_text(c.down_speed as nat))
                &&& named(12, "Up"@, pretty::size_text(c.up_speed as nat))
                &&& c.piece_cursor is Some ==> named(
                    6,
                    "PC"@,
                    number::decimal(c.piece_cursor->0 as nat),
                )
                &&& width is Some && c.piece_bitfield.wf() ==> named(
                    4,
                    "Pieces"@,
                    pretty::bar(c.piece_bitfield@, width->0 as nat),
                )
            }
        }),
{
}

/// The columns of trackers, files and pieces show what their headers say.
pub proof fn law_other_columns(t: TrackerInfo, f: FileInfo, p: PieceProgress, width: Option<usize>)
    ensures
        ({
            let named = |c: int, header: Seq<char>, text: Seq<char>|
                TrackerInfo::column_models()[c].header == header && t.cell(c, width) == Some(text);
            &&& named(1, "Url"@, t.url@)
            &&& named(2, "T"@, number::decimal(t.tier as nat))
            &&& t.succeeded is Some ==> named(
                0,
                ""@,
                seq![
                    if t.succeeded == Some(true) {
                        '✓'
                    } else {
                        '✗'
                    },
                ],
            )
            &&& t@.endpoints is Some ==> named(3, "Peer"@, number::decimal(t@.endpoints->0.len()))
            &&& t.seeders is Some ==> named(4, "Seed"@, number::decimal(t.seeders->0 as nat))
            &&& t.leechers is Some ==> named(5, "Leech"@, number::decimal(t.leechers->0 as nat))
            &&& t.interval is Some ==> named(
                6,
                "Int"@,
                pretty::duration_text(t.interval->0 as nat),
            )
            &&& t.min_interval is Some ==> named(
                7,
                "MinInt"@,
                pretty::duration_text(t.min_interval->0 as nat),
            )
        }),
        FileInfo::column_models()[0].header == "Relative path"@ && f.cell(0, width) == Some(
            f.relative_path@,
        ),
        FileInfo::column_models()[1].header == "Size"@ && f.cell(1, width) == Some(
            pretty::size_text(f.size as nat),
        ),
        PieceProgress::column_models()[0].header == "Idx"@ && p.cell(0, width) == Some(
            number::decimal(p.index as nat),
        ),
        PieceProgress::column_models()[2].header == "%"@ && p.cell(2, width) == Some(p.percentage@),
        PieceProgress::column_models()[3].header == "Num"@ && p.cell(3, width) == Some(
            number::decimal(p.num_obtained_blocks as nat),
        ),
        PieceProgress::column_models()[4].header == "Tot"@ && p.cell(4, width) == Some(
            number::decimal(p.num_blocks as nat),
        ),
{
}

/// `1024` multiplied `k` times.
pub open spec fn unit(k: nat) -> nat
    decreases k,
{
    if k == 0 {
        1
    } else {
        1_024 * unit((k - 1) as nat)
    }
}

/// A size says `t` tenths of a unit: a number of bytes, or a number with one
/// digit behind the point and a unit that is 1024 times the one before.
pub open spec fn says_size(text: Seq<char>, t: nat, k: nat) -> bool {
    if k == 0 {
        t % 10 == 0 && text == number::decimal(t / 10) + " B"@
    } else {
        text == number::decimal(t / 10).push('.') + number::decimal(t % 10) + if k == 1 {
            " KiB"@
        } else if k == 2 {
            " MiB"@
        } else if k == 3 {
            " GiB"@
        } else {
            " TiB"@
        }
    }
}

/// A size is shown in the largest unit that it reaches, up to the largest that
/// there is, and as no more than it is, to the tenth.
pub proof fn law_size_shown(size: nat) -> (r: (nat, nat))
    ensures
        ({
            let (t, k) = r;
            &&& says_size(pretty::size_text(size), t, k)
            &&& k <= 4
            &&& t * unit(k) <= 10 * size < (t + 1) * unit(k)
            &&& k > 0 ==> t >= 10
            &&& k < 4 ==> t < 10_240
        }),
{
    let u = unit(0);
    assert(u == 1);
    assert(10 * size * u <= 10 * size < (10 * size + 1) * u) by (nonlinear_arith)
        requires
            u == 1,
    ;
    lemma_size_shown(size, 10 * size, 0)
}

proof fn lemma_size_shown(size: nat, tenths: nat, k: nat) -> (r: (nat, nat))
    requires
        k <= 4,
        tenths * unit(k) <= 10 * size < (tenths + 1) * unit(k),
        k > 0 ==> tenths >= 10,
        k == 0 ==> tenths == 10 * size,
    ensures
        says_size(pretty::size_from(tenths, k), r.0, r.1),
        r.1 <= 4,
        r.0 * unit(r.1) <= 10 * size < (r.0 + 1) * unit(r.1),
        r.1 > 0 ==> r.0 >= 10,
        r.1 < 4 ==> r.0 < 10_240,
    decreases 4 - k,
{
    if k < 4 && tenths >= 10_240 {
        let next = tenths / 1_024;
        let u = unit(k);
        assert(unit(k + 1) == 1_024 * u);
        assert(next * (1_024 * u) <= tenths * u && (tenths + 1) * u <= (next + 1) * (1_024 * u))
            by (nonlinear_arith)
            requires
                next == tenths / 1_024,
                u >= 0,
        ;
        lemma_size_shown(size, next, k + 1)
    } else {
        (tenths, k)
    }
}

/// A time is shown in days and hours, hours and minutes, minutes and seconds or
/// seconds, whichever is the first that it reaches, and as no more than it is.
pub proof fn law_time_shown(seconds: nat) -> (r: (nat, nat))
    ensures
        ({
            let (a, b) = r;
            let text = pretty::duration_text(seconds);
            let shows = |big: int, small: int, x: Seq<char>, y: Seq<char>|
                text == number::decimal(a) + x + number::decimal(b) + y && big * a + small * b
                    <= seconds < big * a + small * (b + 1) && a >= 1 && small * b < big;
            if seconds >= 86_400 {
                shows(86_400, 3_600, "d "@, "h"@)
            } else if seconds >= 3_600 {
                shows(3_600, 60, "h "@, "m"@)
            } else if seconds >= 60 {
                shows(60, 1, "m "@, "s"@)
            } else {
                text == number::decimal(seconds) + "s"@
            }
        }),
{
    if seconds >= 86_400 {
        (seconds / 86_400, seconds % 86_400 / 3_600)
    } else if seconds >= 3_600 {
        (seconds / 3_600, seconds % 3_600 / 60)
    } else {
        (seconds / 60, seconds % 60)
    }
}

/// A bar is as wide as it should be. It is full where every bit is set, blank
/// where none is, and every bit shows: a cell that it falls into is not blank
/// where it is set, and not full where it is not.
pub proof fn law_bar(bits: Seq<bool>, width: nat, i: int) -> (j: int)
    requires
        width > 0,
        0 <= i < bits.len(),
    ensures
        pretty::bar(bits, width).len() == width,
        (forall|x: int| 0 <= x < bits.len() ==> #[trigger] bits[x]) ==> forall|x: int|
            0 <= x < width ==> #[trigger] pretty::bar(bits, width)[x] == '█',
        (forall|x: int| 0 <= x < bits.len() ==> !#[trigger] bits[x]) ==> forall|x: int|
            0 <= x < width ==> #[trigger] pretty::bar(bits, width)[x] == ' ',
        0 <= j < width,
        j * bits.len() < (i + 1) * width,
        bits[i] ==> pretty::bar(bits, width)[j] != ' ',
        !bits[i] ==> pretty::bar(bits, width)[j] != '█',
{
    let n = bits.len();
    assert forall|x: int| 0 <= x < width implies 0 <= #[trigger] pretty::bar_start(n, width, x)
        < pretty::bar_end(n, width, x) <= n by {
        lemma_bar_cell(n, width, x);
    }
    if forall|x: int| 0 <= x < n ==> #[trigger] bits[x] {
        assert forall|x: int| 0 <= x < width implies #[trigger] pretty::bar(bits, width)[x] == '█' by {
            assert(bits[pretty::bar_start(n, width, x)]);
        }
    }
    let w = width as int;
    assert(n * w / w == n) by (nonlinear_arith)
        requires
            w > 0,
    ;
    let j = lemma_bar_covers(n, width, i, w);
    assert(pretty::bar_start(n, width, j) <= i < pretty::bar_end(n, width, j));
    assert(bits[i] == bits[i]);
    j
}

proof fn lemma_bar_cell(n: nat, width: nat, x: int)
    requires
        n > 0,
        0 <= x < width,
    ensures
        0 <= pretty::bar_start(n, width, x) < pretty::bar_end(n, width, x) <= n,
{
    let w = width as int;
    assert(0 <= n * x / w < n && n * (x + 1) / w <= n) by (nonlinear_arith)
        requires
            n > 0,
            0 <= x < w,
    ;
}

proof fn lemma_bar_covers(n: nat, width: nat, i: int, top: int) -> (j: int)
    requires
        0 <= i < n,
        0 < top <= width,
        i < n * top / width as int,
    ensures
        0 <= j < top,
        pretty::bar_start(n, width, j) <= i < pretty::bar_end(n, width, j),
        j * n < (i + 1) * width,
    decreases top,
{
    lemma_bar_cell(n, width, top - 1);
    let w = width as int;
    let before = n * (top - 1) / w;
    if i < before {
        assert(top - 1 > 0) by (nonlinear_arith)
            requires
                i >= 0,
                i < before,
                before == n * (top - 1) / w,
                top > 0,
                w > 0,
        ;
        lemma_bar_covers(n, width, i, top - 1)
    } else {
        assert((top - 1) * n < (i + 1) * w) by (nonlinear_arith)
            requires
                before == n * (top - 1) / w,
                i >= before,
                w > 0,
        ;
        top - 1
    }
}

/// The sections of peers and trackers show what their headers say, each on a line
/// of its own.
pub proof fn law_sections(
    p: PeerProgress,
    t: TrackerInfo,
    state: Option<TableModel>,
    width: nat,
    palette: PaletteModel,
)
    ensures
        PeerProgress::section_models()[0].header == "Errors"@,
        p.section_content(0, state, width, palette) == Some(
            (text::joined(p@.errors, "\n"@), state),
        ),
        PeerProgress::section_models()[1].header == "Endpoints"@,
        p.section_content(1, state, width, palette) == Some(
            (rows::endpoint_lines(p@.endpoints), state),
        ),
        TrackerInfo::section_models()[0].header == "Peers"@,
        t@.endpoints matches Some(e) ==> t.section_content(0, state, width, palette) == Some(
            (rows::endpoint_lines(e), state),
        ),
        Progress::section_models()[0].header == "Files"@,
        Progress::section_models()[1].header == "Blocks"@,
        Progress::section_models()[2].header == "Peers"@,
        Progress::section_models()[3].header == "Trackers"@,
{
}

} // verus!
