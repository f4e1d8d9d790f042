//! Numbers as bytes and as text.

use vstd::endian::{endianness, Endian};
use vstd::prelude::*;

verus! {

/// The four bytes of a number, most significant first.
pub open spec fn be32(n: u32) -> Seq<u8> {
    seq![
        (n / 0x100_0000) as u8,
        ((n / 0x1_0000) % 0x100) as u8,
        ((n / 0x100) % 0x100) as u8,
        (n % 0x100) as u8,
    ]
}

/// The number that four bytes write, most significant first.
pub open spec fn be32_value(s: Seq<u8>) -> int {
    s[0] * 0x100_0000 + s[1] * 0x1_0000 + s[2] * 0x100 + s[3]
}

/// The two bytes of a number, most significant first.
pub open spec fn be16(n: u16) -> Seq<u8> {
    seq![(n / 0x100) as u8, (n % 0x100) as u8]
}

/// The number that two bytes write, most significant first.
pub open spec fn be16_value(s: Seq<u8>) -> int {
    s[0] * 0x100 + s[1]
}

/// Writing a number and reading it gives the number back.
pub proof fn lemma_be32(n: u32)
    ensures
        be32(n).len() == 4,
        be32_value(be32(n)) == n,
{
}

/// Writing a number and reading it gives the number back.
pub proof fn lemma_be16(n: u16)
    ensures
        be16(n).len() == 2,
        be16_value(be16(n)) == n,
{
}

/// Appends a number's four bytes.
pub fn push_be32(v: &mut Vec<u8>, n: u32)
    ensures
        final(v)@ == old(v)@ + be32(n),
{
    v.push((n / 0x100_0000) as u8);
    v.push(((n / 0x1_0000) % 0x100) as u8);
    v.push(((n / 0x100) % 0x100) as u8);
    v.push((n % 0x100) as u8);
    assert(v@ =~= old(v)@ + be32(n));
}

/// Appends a number's two bytes.
pub fn push_be16(v: &mut Vec<u8>, n: u16)
    ensures
        final(v)@ == old(v)@ + be16(n),
{
    v.push((n / 0x100) as u8);
    v.push((n % 0x100) as u8);
    assert(v@ =~= old(v)@ + be16(n));
}

/// The eight bytes of a number, most significant first.
pub open spec fn be64(n: u64) -> Seq<u8> {
    be32((n / 0x1_0000_0000) as u32) + be32((n % 0x1_0000_0000) as u32)
}

/// Appends a number's eight bytes.
pub fn push_be64(v: &mut Vec<u8>, n: u64)
    ensures
        final(v)@ == old(v)@ + be64(n),
{
    push_be32(v, (n / 0x1_0000_0000) as u32);
    push_be32(v, (n % 0x1_0000_0000) as u32);
    assert(v@ =~= old(v)@ + be64(n));
}

/// The bytes of a number, `size` of them, least significant first.
pub open spec fn little_endian(n: nat, size: nat) -> Seq<u8>
    decreases size,
{
    if size == 0 {
        Seq::empty()
    } else {
        seq![(n % 0x100) as u8] + little_endian(n / 0x100, (size - 1) as nat)
    }
}

/// The bytes of a number as this machine holds them: as many as it has for a
/// `usize`, in its own order.
pub open spec fn native_of(n: usize) -> Seq<u8> {
    let little = little_endian(n as nat, usize::BITS as nat / 8);
    match endianness() {
        Endian::Little => little,
        Endian::Big => little.reverse(),
    }
}

/// Calls `usize::to_ne_bytes`. Taken for granted: it gives the bytes of the
/// number, all of them, in the order of the machine that it runs on.
#[verifier::external_body]
pub(crate) fn native_bytes(n: usize) -> (r: Vec<u8>)
    ensures
        r@ == native_of(n),
{
    n.to_ne_bytes().to_vec()
}

/// Reads the four bytes at `at`.
pub fn read_be32(s: &[u8], at: usize) -> (r: u32)
    requires
        at + 4 <= s@.len(),
    ensures
        r == be32_value(s@.subrange(at as int, at + 4)),
{
    s[at] as u32 * 0x100_0000 + s[at + 1] as u32 * 0x1_0000 + s[at + 2] as u32 * 0x100
        + s[at + 3] as u32
}

/// Reads the two bytes at `at`.
pub fn read_be16(s: &[u8], at: usize) -> (r: u16)
    requires
        at + 2 <= s@.len(),
    ensures
        r == be16_value(s@.subrange(at as int, at + 2)),
{
    s[at] as u16 * 0x100 + s[at + 1] as u16
}

/// A number's decimal digits, as bytes.
pub open spec fn digits(n: nat) -> Seq<u8>
    decreases n,
{
    if n < 10 {
        seq![(48 + n) as u8]
    } else {
        digits(n / 10).push((48 + n % 10) as u8)
    }
}

/// A number's decimal digits, as text.
pub open spec fn decimal(n: nat) -> Seq<char>
    decreases n,
{
    if n < 10 {
        seq![(48 + n) as u8 as char]
    } else {
        decimal(n / 10).push((48 + n % 10) as u8 as char)
    }
}

/// The byte is a decimal digit.
pub open spec fn is_digit(b: u8) -> bool {
    48 <= b <= 57
}

/// The number that decimal digits write.
pub open spec fn digits_value(s: Seq<u8>) -> nat
    decreases s.len(),
{
    if s.len() == 0 {
        0
    } else {
        digits_value(s.drop_last()) * 10 + (s.last() - 48) as nat
    }
}

/// A number's digits are digits, and write the number.
pub proof fn lemma_digits(n: nat)
    ensures
        digits(n).len() > 0,
        forall|i: int| 0 <= i < digits(n).len() ==> is_digit(#[trigger] digits(n)[i]),
        digits_value(digits(n)) == n,
    decreases n,
{
    if n < 10 {
        let s = digits(n);
        assert(s.drop_last() =~= Seq::<u8>::empty());
        assert(digits_value(s.drop_last()) == 0);
    } else {
        lemma_digits(n / 10);
        let s = digits(n);
        assert(s.drop_last() =~= digits(n / 10));
    }
}

/// More digits write no smaller a number.
pub proof fn lemma_digits_prefix(s: Seq<u8>, n: int)
    requires
        0 <= n <= s.len(),
        forall|i: int| 0 <= i < s.len() ==> is_digit(#[trigger] s[i]),
    ensures
        digits_value(s.take(n)) <= digits_value(s),
    decreases s.len(),
{
    if n < s.len() {
        let rest = s.drop_last();
        lemma_digits_prefix(rest, n);
        assert(rest.take(n) =~= s.take(n));
    } else {
        assert(s.take(n) =~= s);
    }
}

/// Appends a number's decimal digits.
pub fn push_digits(v: &mut Vec<u8>, n: u64)
    ensures
        final(v)@ == old(v)@ + digits(n as nat),
    decreases n,
{
    if n >= 10 {
        push_digits(v, n / 10);
    }
    v.push((48 + n % 10) as u8);
    assert(v@ =~= old(v)@ + digits(n as nat));
}

/// Appends a number's decimal digits.
pub fn push_decimal(s: &mut String, n: u64)
    ensures
        final(s)@ == old(s)@ + decimal(n as nat),
    decreases n,
{
    if n >= 10 {
        push_decimal(s, n / 10);
    }
    s.push((48 + n % 10) as u8 as char);
    assert(s@ =~= old(s)@ + decimal(n as nat));
}

/// A number in decimal.
pub fn to_decimal(n: u64) -> (r: String)
    ensures
        r@ == decimal(n as nat),
{
    let mut r = String::new();
    push_decimal(&mut r, n);
    assert(r@ =~= decimal(n as nat));
    r
}

/// The number that the digits from `from` to `to` write, if it fits.
pub fn read_digits(s: &[u8], from: usize, to: usize) -> (r: Option<u64>)
    requires
        from <= to <= s@.len(),
        forall|i: int| from <= i < to ==> is_digit(#[trigger] s@[i]),
    ensures
        match r {
            Some(n) => n == digits_value(s@.subrange(from as int, to as int)),
            None => digits_value(s@.subrange(from as int, to as int)) > u64::MAX,
        },
{
    let ghost all = s@.subrange(from as int, to as int);
    let mut n: u64 = 0;
    let mut i = from;
    while i < to
        invariant
            from <= i <= to <= s@.len(),
            all == s@.subrange(from as int, to as int),
            forall|i: int| from <= i < to ==> is_digit(#[trigger] s@[i]),
            n == digits_value(all.take(i - from)),
        decreases to - i,
    {
        let ghost seen = all.take(i - from + 1);
        proof {
            assert(seen.drop_last() =~= all.take(i - from));
            assert(seen.last() == s@[i as int]);
            assert forall|j: int| 0 <= j < all.len() implies is_digit(#[trigger] all[j]) by {
                assert(is_digit(s@[from + j]));
            }
            lemma_digits_prefix(all, i - from + 1);
        }
        let d = (s[i] - 48) as u64;
        if n > (u64::MAX - d) / 10 {
            return None;
        }
        n = n * 10 + d;
        i += 1;
    }
    assert(all.take(to - from) =~= all);
    Some(n)
}

/// What bytes are worth as digits of a number, each 256 times the one behind it.
pub open spec fn worth(s: Seq<u8>) -> nat
    decreases s.len(),
{
    if s.len() == 0 {
        0
    } else {
        256 * worth(s.drop_last()) + s.last() as nat
    }
}

/// What decimal digits are worth, each ten times the one behind it.
pub open spec fn decimal_worth(s: Seq<char>) -> nat
    decreases s.len(),
{
    if s.len() == 0 {
        0
    } else {
        10 * decimal_worth(s.drop_last()) + (s.last() as nat - '0' as nat) as nat
    }
}

/// The bytes of a number are worth the number, and bytes are read as what they
/// are worth.
pub proof fn law_bytes_worth(a: u16, b: u32, c: u64, s: Seq<u8>)
    ensures
        be16(a).len() == 2 && worth(be16(a)) == a,
        be32(b).len() == 4 && worth(be32(b)) == b,
        be64(c).len() == 8 && worth(be64(c)) == c,
        s.len() == 2 ==> be16_value(s) == worth(s),
        s.len() == 4 ==> be32_value(s) == worth(s),
{
    lemma_worth2(be16(a));
    lemma_be16(a);
    lemma_be32_worth(b);
    lemma_be64_worth(c);
    if s.len() == 2 {
        lemma_worth2(s);
    }
    if s.len() == 4 {
        lemma_worth4(s);
    }
}

proof fn lemma_be32_worth(n: u32)
    ensures
        be32(n).len() == 4,
        worth(be32(n)) == n,
{
    lemma_worth4(be32(n));
    lemma_be32(n);
}

proof fn lemma_be64_worth(n: u64)
    ensures
        be64(n).len() == 8,
        worth(be64(n)) == n,
{
    let high = (n / 0x1_0000_0000) as u32;
    let low = (n % 0x1_0000_0000) as u32;
    lemma_be32_worth(high);
    lemma_be32_worth(low);
    lemma_worth_append(be32(high), be32(low));
}

proof fn lemma_worth2(s: Seq<u8>)
    requires
        s.len() == 2,
    ensures
        worth(s) == 256 * s[0] + s[1],
{
    reveal_with_fuel(worth, 3);
}

proof fn lemma_worth4(s: Seq<u8>)
    requires
        s.len() == 4,
    ensures
        worth(s) == 0x100_0000 * s[0] + 0x1_0000 * s[1] + 0x100 * s[2] + s[3],
{
    reveal_with_fuel(worth, 5);
}

proof fn lemma_worth_append(a: Seq<u8>, b: Seq<u8>)
    requires
        b.len() == 4,
    ensures
        worth(a + b) == 0x1_0000_0000 * worth(a) + worth(b),
{
    reveal_with_fuel(worth, 5);
    assert((a + b).drop_last().drop_last().drop_last().drop_last() =~= a);
}

/// A number's decimal digits are worth the number; the first is no zero, unless
/// the number is.
pub proof fn law_decimal_worth(n: nat)
    ensures
        decimal_worth(decimal(n)) == n,
        decimal(n).len() > 0,
        decimal(n)[0] == '0' <==> n == 0,
        forall|i: int| 0 <= i < decimal(n).len() ==> '0' <= #[trigger] decimal(n)[i] <= '9',
    decreases n,
{
    if n < 10 {
        let s = decimal(n);
        assert(s.drop_last() =~= Seq::empty());
        assert(decimal_worth(s.drop_last()) == 0);
    } else {
        law_decimal_worth(n / 10);
        let s = decimal(n);
        assert(s.drop_last() =~= decimal(n / 10));
        assert(s[0] == decimal(n / 10)[0]);
        assert forall|i: int| 0 <= i < s.len() implies '0' <= #[trigger] s[i] <= '9' by {
            if i < s.len() - 1 {
                assert(s[i] == decimal(n / 10)[i]);
            }
        }
    }
}

} // verus!
