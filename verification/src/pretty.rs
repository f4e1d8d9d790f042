//! Sizes, times and bitfields as people read them.

use crate::bitfield::Bitfield;
use crate::number;
use vstd::prelude::*;

verus! {

/// The name of a unit of size; each is 1024 times the one before.
pub open spec fn unit_name(k: nat) -> Seq<char> {
    if k == 0 {
        " B"@
    } else if k == 1 {
        " KiB"@
    } else if k == 2 {
        " MiB"@
    } else if k == 3 {
        " GiB"@
    } else {
        " TiB"@
    }
}

/// A size in the largest unit from unit `k` on that it reaches, with one decimal
/// above bytes. `tenths` is the size in tenths of unit `k`.
pub open spec fn size_from(tenths: nat, k: nat) -> Seq<char>
    decreases 4 - k,
{
    if k < 4 && tenths >= 10_240 {
        size_from(tenths / 1_024, k + 1)
    } else if k == 0 {
        number::decimal(tenths / 10) + unit_name(0)
    } else {
        number::decimal(tenths / 10).push('.') + number::decimal(tenths % 10) + unit_name(k)
    }
}

/// A size in bytes.
pub open spec fn size_text(size: nat) -> Seq<char> {
    size_from(10 * size, 0)
}

/// A size in bytes.
pub fn pretty_size(size: usize) -> (r: String)
    ensures
        r@ == size_text(size as nat),
{
    let mut tenths: u128 = 10 * (size as u128);
    let mut k: u8 = 0;
    while k < 4 && tenths >= 10_240
        invariant
            k <= 4,
            tenths <= 10 * usize::MAX,
            size_text(size as nat) == size_from(tenths as nat, k as nat),
        decreases 4 - k,
    {
        tenths = tenths / 1_024;
        k += 1;
    }
    let mut r = String::new();
    number::push_decimal(&mut r, whole_part(tenths));
    if k > 0 {
        r.push('.');
        number::push_decimal(&mut r, (tenths % 10) as u64);
    }
    if k == 0 {
        r.append(" B");
    } else if k == 1 {
        r.append(" KiB");
    } else if k == 2 {
        r.append(" MiB");
    } else if k == 3 {
        r.append(" GiB");
    } else {
        r.append(" TiB");
    }
    assert(r@ =~= size_from(tenths as nat, k as nat));
    r
}

/// Tenths without the tenths.
fn whole_part(tenths: u128) -> (r: u64)
    requires
        tenths <= 10 * usize::MAX,
    ensures
        r == tenths / 10,
{
    (tenths / 10) as u64
}

/// A time in seconds: the two largest units of days, hours, minutes and seconds
/// that it reaches.
pub open spec fn duration_text(seconds: nat) -> Seq<char> {
    if seconds >= 86_400 {
        number::decimal(seconds / 86_400) + "d "@ + number::decimal(seconds % 86_400 / 3_600)
            + "h"@
    } else if seconds >= 3_600 {
        number::decimal(seconds / 3_600) + "h "@ + number::decimal(seconds % 3_600 / 60) + "m"@
    } else if seconds >= 60 {
        number::decimal(seconds / 60) + "m "@ + number::decimal(seconds % 60) + "s"@
    } else {
        number::decimal(seconds) + "s"@
    }
}

/// A time in seconds.
pub fn pretty_duration(seconds: u64) -> (r: String)
    ensures
        r@ == duration_text(seconds as nat),
{
    if seconds >= 86_400 {
        let mut r = number::to_decimal(seconds / 86_400);
        r.append("d ");
        number::push_decimal(&mut r, seconds % 86_400 / 3_600);
        r.append("h");
        r
    } else if seconds >= 3_600 {
        let mut r = number::to_decimal(seconds / 3_600);
        r.append("h ");
        number::push_decimal(&mut r, seconds % 3_600 / 60);
        r.append("m");
        r
    } else if seconds >= 60 {
        let mut r = number::to_decimal(seconds / 60);
        r.append("m ");
        number::push_decimal(&mut r, seconds % 60);
        r.append("s");
        r
    } else {
        let mut r = number::to_decimal(seconds);
        r.append("s");
        r
    }
}

/// The first bit that cell `j` of a bar of `width` cells stands for.
pub open spec fn bar_start(n: nat, width: nat, j: int) -> int {
    n * j / width as int
}

/// The end of the bits that cell `j` stands for: at least one where there is any.
pub open spec fn bar_end(n: nat, width: nat, j: int) -> int {
    let start = bar_start(n, width, j);
    let end = bar_start(n, width, j + 1);
    if end > start {
        end
    } else if start < n {
        start + 1
    } else {
        start
    }
}

/// Some bit from `from` to `to` is `bit`.
pub open spec fn some_bit(bits: Seq<bool>, from: int, to: int, bit: bool) -> bool {
    exists|i: int| from <= i < to && #[trigger] bits[i] == bit
}

/// Cell `j` of a bar: full where all of its bits are set, half where some are,
/// and empty where none is.
pub open spec fn bar_cell(bits: Seq<bool>, width: nat, j: int) -> char {
    let from = bar_start(bits.len(), width, j);
    let to = bar_end(bits.len(), width, j);
    if !some_bit(bits, from, to, true) {
        ' '
    } else if some_bit(bits, from, to, false) {
        '▒'
    } else {
        '█'
    }
}

/// A bitfield as a bar of `width` cells.
pub open spec fn bar(bits: Seq<bool>, width: nat) -> Seq<char> {
    Seq::new(width, |j: int| bar_cell(bits, width, j))
}

/// Where cell `j` of a bar starts.
fn cell_start(n: usize, width: usize, j: usize) -> (r: usize)
    requires
        0 < width,
        j <= width,
    ensures
        r == bar_start(n as nat, width as nat, j as int),
        r <= n,
{
    proof {
        let a = n as int;
        let b = j as int;
        let w = width as int;
        assert(0 <= a * b <= 0xffff_ffff_ffff_ffff * 0xffff_ffff_ffff_ffff) by (nonlinear_arith)
            requires
                0 <= a <= 0xffff_ffff_ffff_ffff,
                0 <= b <= 0xffff_ffff_ffff_ffff,
        ;
        assert(0 <= a * b / w <= a) by (nonlinear_arith)
            requires
                0 <= a,
                0 <= b <= w,
                0 < w,
        ;
    }
    ((n as u128 * j as u128) / width as u128) as usize
}

/// A bitfield as a bar of `width` cells.
pub fn pretty_bar(bits: &Bitfield, width: usize) -> (r: String)
    requires
        bits.wf(),
    ensures
        r@ == bar(bits@, width as nat),
{
    let n = bits.length;
    let ghost want = bar(bits@, width as nat);
    let mut r = String::new();
    let mut j: usize = 0;
    assert(r@ =~= want.take(0));
    while j < width
        invariant
            j <= width,
            bits.wf(),
            n == bits@.len(),
            n == bits.length,
            want == bar(bits@, width as nat),
            r@ == want.take(j as int),
        decreases width - j,
    {
        let from = cell_start(n, width, j);
        let next = cell_start(n, width, j + 1);
        let to = if next > from {
            next
        } else if from < n {
            from + 1
        } else {
            from
        };
        let mut some_set = false;
        let mut some_unset = false;
        let mut i = from;
        while i < to
            invariant
                from <= i <= to <= n,
                bits.wf(),
                n == bits@.len(),
                n == bits.length,
                some_set == some_bit(bits@, from as int, i as int, true),
                some_unset == some_bit(bits@, from as int, i as int, false),
            decreases to - i,
        {
            let bit = bits.has(i);
            proof {
                assert(bits@[i as int] == bit);
                assert forall|b: bool| #[trigger]
                    some_bit(bits@, from as int, i + 1, b) == (some_bit(
                        bits@,
                        from as int,
                        i as int,
                        b,
                    ) || bit == b) by {
                    if some_bit(bits@, from as int, i as int, b) {
                        let k = choose|k: int| from <= k < i && #[trigger] bits@[k] == b;
                        assert(bits@[k] == b);
                    }
                }
            }
            if bit {
                some_set = true;
            } else {
                some_unset = true;
            }
            i += 1;
        }
        let c = if !some_set {
            ' '
        } else if some_unset {
            '▒'
        } else {
            '█'
        };
        r.push(c);
        assert(want.take(j as int + 1) =~= want.take(j as int).push(want[j as int]));
        j += 1;
    }
    assert(want.take(width as int) =~= want);
    r
}

} // verus!
