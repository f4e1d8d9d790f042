//! Sets of small integers, one bit each.

use vstd::prelude::*;

verus! {

/// The number of bytes that hold `n` bits.
pub open spec fn bytes_for(n: int) -> int {
    (n + 7) / 8
}

/// The mask of bit `k` of a byte, counted from the most significant one.
pub open spec fn bit_mask(k: int) -> u8 {
    if k == 0 {
        0x80
    } else if k == 1 {
        0x40
    } else if k == 2 {
        0x20
    } else if k == 3 {
        0x10
    } else if k == 4 {
        0x08
    } else if k == 5 {
        0x04
    } else if k == 6 {
        0x02
    } else {
        0x01
    }
}

/// Whether bit `i` of a byte string is set, the most significant bit of the
/// first byte being bit zero.
pub open spec fn bit_of(bytes: Seq<u8>, i: int) -> bool {
    bytes[i / 8] & bit_mask(i % 8) != 0
}

/// The first `n` bits of a byte string.
pub open spec fn bits_of(bytes: Seq<u8>, n: int) -> Seq<bool> {
    Seq::new(n as nat, |i: int| bit_of(bytes, i))
}

/// A byte string with bit `i` set.
pub open spec fn with_bit(bytes: Seq<u8>, i: int) -> Seq<u8> {
    bytes.update(i / 8, bytes[i / 8] | bit_mask(i % 8))
}

/// How many members a prefix of a bit sequence has.
pub open spec fn count_set(bits: Seq<bool>) -> nat
    decreases bits.len(),
{
    if bits.len() == 0 {
        0
    } else {
        count_set(bits.drop_last()) + if bits.last() {
            1nat
        } else {
            0nat
        }
    }
}

/// A set of the numbers below a fixed length. The bits of the last byte past
/// that length mean nothing.
#[derive(Debug)]
pub struct Bitfield {
    pub bytes: Vec<u8>,
    pub length: usize,
}

impl View for Bitfield {
    type V = Seq<bool>;

    open spec fn view(&self) -> Seq<bool> {
        bits_of(self.bytes@, self.length as int)
    }
}

proof fn lemma_mask_set(b: u8, m: u8, x: u8)
    ensures
        m != 0 ==> (b | m) & m != 0,
        m & x == 0 ==> (b | m) & x == b & x,
        0xffu8 & m == m,
        0u8 & m == 0,
{
    assert(m != 0 ==> (b | m) & m != 0) by (bit_vector);
    assert(m & x == 0 ==> (b | m) & x == b & x) by (bit_vector);
    assert(0xffu8 & m == m) by (bit_vector);
    assert(0u8 & m == 0) by (bit_vector);
}

proof fn lemma_masks_disjoint(j: int, k: int)
    requires
        0 <= j < 8,
        0 <= k < 8,
        j != k,
    ensures
        bit_mask(j) & bit_mask(k) == 0,
        bit_mask(j) != 0,
{
    assert(forall|x: u8, y: u8| #[trigger] (x & y) == y & x) by (bit_vector);
    assert(0x80u8 & 0x40u8 == 0 && 0x80u8 & 0x20u8 == 0 && 0x80u8 & 0x10u8 == 0 && 0x80u8 & 0x08u8
        == 0 && 0x80u8 & 0x04u8 == 0 && 0x80u8 & 0x02u8 == 0 && 0x80u8 & 0x01u8 == 0) by (bit_vector);
    assert(0x40u8 & 0x20u8 == 0 && 0x40u8 & 0x10u8 == 0 && 0x40u8 & 0x08u8 == 0 && 0x40u8 & 0x04u8
        == 0 && 0x40u8 & 0x02u8 == 0 && 0x40u8 & 0x01u8 == 0) by (bit_vector);
    assert(0x20u8 & 0x10u8 == 0 && 0x20u8 & 0x08u8 == 0 && 0x20u8 & 0x04u8 == 0 && 0x20u8 & 0x02u8
        == 0 && 0x20u8 & 0x01u8 == 0) by (bit_vector);
    assert(0x10u8 & 0x08u8 == 0 && 0x10u8 & 0x04u8 == 0 && 0x10u8 & 0x02u8 == 0 && 0x10u8 & 0x01u8
        == 0) by (bit_vector);
    assert(0x08u8 & 0x04u8 == 0 && 0x08u8 & 0x02u8 == 0 && 0x08u8 & 0x01u8 == 0) by (bit_vector);
    assert(0x04u8 & 0x02u8 == 0 && 0x04u8 & 0x01u8 == 0 && 0x02u8 & 0x01u8 == 0) by (bit_vector);
}

/// Setting a bit of a byte string shows in that bit alone.
pub proof fn lemma_with_bit(bytes: Seq<u8>, n: int, i: int)
    requires
        0 <= i < n,
        n <= bytes.len() * 8,
    ensures
        bits_of(with_bit(bytes, i), n) == bits_of(bytes, n).update(i, true),
        with_bit(bytes, i).len() == bytes.len(),
{
    let after = with_bit(bytes, i);
    let expected = bits_of(bytes, n).update(i, true);
    assert forall|j: int| 0 <= j < n implies bits_of(after, n)[j] == expected[j] by {
        if j / 8 == i / 8 {
            if j == i {
                lemma_masks_disjoint(i % 8, (i + 1) % 8);
                lemma_mask_set(bytes[i / 8], bit_mask(i % 8), 0);
            } else {
                assert(j % 8 != i % 8);
                lemma_masks_disjoint(i % 8, j % 8);
                lemma_mask_set(bytes[i / 8], bit_mask(i % 8), bit_mask(j % 8));
            }
        }
    }
    assert(bits_of(after, n) =~= expected);
}

/// A set grows by one with a new member.
pub proof fn lemma_count_set_update(bits: Seq<bool>, i: int)
    requires
        0 <= i < bits.len(),
        !bits[i],
    ensures
        count_set(bits.update(i, true)) == count_set(bits) + 1,
    decreases bits.len(),
{
    let after = bits.update(i, true);
    if i == bits.len() - 1 {
        assert(after.drop_last() =~= bits.drop_last());
    } else {
        assert(after.drop_last() =~= bits.drop_last().update(i, true));
        lemma_count_set_update(bits.drop_last(), i);
    }
}

/// A set has at most as many members as there are numbers.
pub proof fn lemma_count_set_bound(bits: Seq<bool>)
    ensures
        count_set(bits) <= bits.len(),
        count_set(bits) == bits.len() <==> forall|i: int| 0 <= i < bits.len() ==> #[trigger] bits[i],
    decreases bits.len(),
{
    if bits.len() > 0 {
        let rest = bits.drop_last();
        lemma_count_set_bound(rest);
        assert(bits.last() == bits[bits.len() - 1]);
        if forall|i: int| 0 <= i < rest.len() ==> #[trigger] rest[i] {
            assert forall|i: int| 0 <= i < bits.len() - 1 implies #[trigger] bits[i] by {
                assert(rest[i]);
            }
        }
        if forall|i: int| 0 <= i < bits.len() ==> #[trigger] bits[i] {
            assert forall|i: int| 0 <= i < rest.len() implies #[trigger] rest[i] by {
                assert(bits[i]);
            }
        }
    }
}

/// The mask of bit `k` of a byte.
fn mask(k: usize) -> (r: u8)
    requires
        k < 8,
    ensures
        r == bit_mask(k as int),
{
    match k {
        0 => 0x80,
        1 => 0x40,
        2 => 0x20,
        3 => 0x10,
        4 => 0x08,
        5 => 0x04,
        6 => 0x02,
        _ => 0x01,
    }
}

impl Bitfield {
    /// There is exactly room for the bits.
    pub open spec fn wf(self) -> bool {
        self.bytes@.len() == bytes_for(self.length as int)
    }

    /// The empty set of numbers below `length`.
    pub fn new(length: usize) -> (r: Bitfield)
        ensures
            r.wf(),
            r.length == length,
            r@ == Seq::new(length as nat, |i: int| false),
            r.bytes@ == Seq::new(bytes_for(length as int) as nat, |i: int| 0u8),
    {
        let num_bytes = length / 8 + if length % 8 == 0 {
            0
        } else {
            1usize
        };
        let mut bytes: Vec<u8> = Vec::new();
        let mut i: usize = 0;
        while i < num_bytes
            invariant
                i <= num_bytes,
                bytes@.len() == i,
                forall|j: int| 0 <= j < i ==> bytes@[j] == 0,
            decreases num_bytes - i,
        {
            bytes.push(0);
            i += 1;
        }
        let r = Bitfield { bytes, length };
        proof {
            assert forall|j: int| 0 <= j < length implies !(#[trigger] r@[j]) by {
                lemma_mask_set(0, bit_mask(j % 8), 0);
            }
            assert(r@ =~= Seq::new(length as nat, |i: int| false));
            assert(r.bytes@ =~= Seq::new(bytes_for(length as int) as nat, |i: int| 0u8));
        }
        r
    }

    /// The set that a received byte string writes: eight members to a byte.
    pub fn from_vec(bytes: Vec<u8>) -> (r: Bitfield)
        requires
            bytes@.len() * 8 <= usize::MAX,
        ensures
            r.wf(),
            r.length == bytes@.len() * 8,
            r.bytes@ == bytes@,
    {
        let length = bytes.len() * 8;
        Bitfield { bytes, length }
    }

    /// A copy of the set.
    pub fn copy(&self) -> (r: Bitfield)
        ensures
            r@ == self@,
            r.bytes@ == self.bytes@,
            r.length == self.length,
    {
        let mut bytes: Vec<u8> = Vec::new();
        let mut i: usize = 0;
        while i < self.bytes.len()
            invariant
                i <= self.bytes.len(),
                bytes@ == self.bytes@.take(i as int),
            decreases self.bytes.len() - i,
        {
            assert(self.bytes@.take(i as int + 1) =~= self.bytes@.take(i as int).push(
                self.bytes@[i as int],
            ));
            bytes.push(self.bytes[i]);
            i += 1;
        }
        assert(bytes@ =~= self.bytes@);
        Bitfield { bytes, length: self.length }
    }

    /// Whether there are as many bytes as the length takes.
    pub fn is_sound(&self) -> (r: bool)
        ensures
            r == self.wf(),
    {
        let whole = self.length / 8;
        if self.length % 8 == 0 {
            self.bytes.len() == whole
        } else {
            self.bytes.len() == whole + 1
        }
    }

    /// Whether `index` is a member.
    pub fn has(&self, index: usize) -> (r: bool)
        requires
            self.wf(),
            index < self.length,
        ensures
            r == self@[index as int],
    {
        self.bytes[index / 8] & mask(index % 8) != 0
    }

    /// Adds `index`.
    pub fn set(&mut self, index: usize)
        requires
            old(self).wf(),
            index < old(self).length,
        ensures
            final(self).wf(),
            final(self).length == old(self).length,
            final(self).bytes@ == with_bit(old(self).bytes@, index as int),
            final(self)@ == old(self)@.update(index as int, true),
    {
        let byte = self.bytes[index / 8];
        let m = mask(index % 8);
        self.bytes[index / 8] = byte | m;
        proof {
            lemma_with_bit(old(self).bytes@, self.length as int, index as int);
            assert(self.bytes@ =~= with_bit(old(self).bytes@, index as int));
        }
    }

    /// Makes every number a member, or none.
    pub fn fill(&mut self, value: bool)
        requires
            old(self).wf(),
        ensures
            final(self).wf(),
            final(self).length == old(self).length,
            final(self)@ == Seq::new(old(self).length as nat, |i: int| value),
    {
        let byte: u8 = if value {
            0xff
        } else {
            0
        };
        let mut i: usize = 0;
        while i < self.bytes.len()
            invariant
                i <= self.bytes.len(),
                self.wf(),
                self.length == old(self).length,
                forall|j: int| 0 <= j < i ==> self.bytes@[j] == byte,
            decreases self.bytes.len() - i,
        {
            self.bytes[i] = byte;
            i += 1;
        }
        proof {
            assert forall|j: int| 0 <= j < self.length implies self@[j] == value by {
                lemma_masks_disjoint(j % 8, (j + 1) % 8);
                lemma_mask_set(0, bit_mask(j % 8), 0);
            }
            assert(self@ =~= Seq::new(self.length as nat, |i: int| value));
        }
    }

    /// Takes the members from a byte string of the same size.
    pub fn set_bytes(&mut self, bytes: &[u8])
        requires
            old(self).wf(),
            bytes@.len() == old(self).bytes@.len(),
        ensures
            final(self).wf(),
            final(self).length == old(self).length,
            final(self).bytes@ == bytes@,
            final(self)@ == bits_of(bytes@, old(self).length as int),
    {
        let mut i: usize = 0;
        while i < self.bytes.len()
            invariant
                i <= self.bytes.len(),
                self.bytes@.len() == bytes@.len(),
                self.length == old(self).length,
                forall|j: int| 0 <= j < i ==> self.bytes@[j] == bytes@[j],
            decreases self.bytes.len() - i,
        {
            self.bytes[i] = bytes[i];
            i += 1;
        }
        assert(self.bytes@ =~= bytes@);
    }

    /// The byte string that writes the set.
    pub fn as_bytes(&self) -> (r: &[u8])
        ensures
            r@ == self.bytes@,
    {
        self.bytes.as_slice()
    }

    /// The size of that byte string.
    pub fn num_bytes(&self) -> (r: usize)
        ensures
            r == self.bytes@.len(),
    {
        self.bytes.len()
    }
}

/// Sending a set's bytes and taking them into a set of the same length gives
/// the same set back.
pub proof fn law_bitfield_bytes_round_trip(a: Bitfield, b: Bitfield)
    requires
        a.bytes@ == b.bytes@,
        a.length == b.length,
    ensures
        a@ == b@,
{
}

/// The bits of a byte string are those of its bytes, one byte after the other, and
/// of each byte the one that weighs most comes first.
pub proof fn law_bit_order(bytes: Seq<u8>, i: int)
    requires
        0 <= i < 8 * bytes.len(),
    ensures
        bit_of(bytes, i) <==> (bytes[i / 8] >> ((7 - i % 8) as u8)) & 1 == 1,
{
    let b = bytes[i / 8];
    assert({
        &&& (b & 0x80 != 0) == ((b >> 7) & 1 == 1)
        &&& (b & 0x40 != 0) == ((b >> 6) & 1 == 1)
        &&& (b & 0x20 != 0) == ((b >> 5) & 1 == 1)
        &&& (b & 0x10 != 0) == ((b >> 4) & 1 == 1)
        &&& (b & 0x08 != 0) == ((b >> 3) & 1 == 1)
        &&& (b & 0x04 != 0) == ((b >> 2) & 1 == 1)
        &&& (b & 0x02 != 0) == ((b >> 1) & 1 == 1)
        &&& (b & 0x01 != 0) == ((b >> 0) & 1 == 1)
    }) by (bit_vector);
}

/// A byte is the sum of what its bits weigh.
pub proof fn law_bits_weigh(b: u8)
    ensures
        ({
            let bit = |i: int, weight: int|
                if bit_of(seq![b], i) {
                    weight
                } else {
                    0
                };
            b == bit(0, 128) + bit(1, 64) + bit(2, 32) + bit(3, 16) + bit(4, 8) + bit(5, 4) + bit(
                6,
                2,
            ) + bit(7, 1)
        }),
{
    let w = |m: u8|
        if b & m != 0 {
            m as int
        } else {
            0
        };
    assert(b == (b & 0x80) + (b & 0x40) + (b & 0x20) + (b & 0x10) + (b & 0x08) + (b & 0x04) + (b
        & 0x02) + (b & 0x01)) by (bit_vector);
    assert((b & 0x80 == 0 || b & 0x80 == 0x80) && (b & 0x40 == 0 || b & 0x40 == 0x40) && (b & 0x20
        == 0 || b & 0x20 == 0x20) && (b & 0x10 == 0 || b & 0x10 == 0x10) && (b & 0x08 == 0 || b
        & 0x08 == 0x08) && (b & 0x04 == 0 || b & 0x04 == 0x04) && (b & 0x02 == 0 || b & 0x02
        == 0x02) && (b & 0x01 == 0 || b & 0x01 == 0x01)) by (bit_vector);
}

/// Setting a bit of a byte string sets that bit and no other, and counting the
/// bits counts each that is set once.
pub proof fn law_set_and_count(bytes: Seq<u8>, n: int, i: int)
    requires
        0 <= i < n <= 8 * bytes.len(),
    ensures
        forall|j: int|
            0 <= j < n ==> (#[trigger] bits_of(with_bit(bytes, i), n)[j] <==> j == i || bits_of(
                bytes,
                n,
            )[j]),
        count_set(bits_of(with_bit(bytes, i), n)) == count_set(bits_of(bytes, n)) + if bits_of(
            bytes,
            n,
        )[i] {
            0nat
        } else {
            1nat
        },
{
    lemma_with_bit(bytes, n, i);
    let before = bits_of(bytes, n);
    if before[i] {
        assert(before.update(i, true) =~= before);
    } else {
        lemma_count_set_update(before, i);
    }
}

} // verus!
