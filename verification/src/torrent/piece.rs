//! A piece that is being put together from blocks.

use crate::bitfield::Bitfield;
use crate::digest;
use crate::types::{PeerId, Sha1Hash};
use vstd::prelude::*;

verus! {

/// How long a peer may take to answer a request, in milliseconds.
pub const REQUEST_TIMEOUT: u64 = 5_000;

/// What has become of a block so far. Times are in milliseconds.
#[derive(Clone, Copy, Debug)]
pub enum Block {
    Free,
    Requested { peer: PeerId, since: u64 },
    Obtained,
}

/// A piece and its blocks. The data is there from the first block on, until the
/// piece is complete and has been handed over for writing.
#[derive(Debug)]
pub struct Piece {
    pub index: Option<usize>,
    pub block_size: usize,
    pub length: usize,
    pub hash: Sha1Hash,
    pub blocks: Vec<Block>,
    pub data: Vec<u8>,
    pub refusals: Vec<(usize, PeerId)>,
    pub written: bool,
}

/// A piece's contents.
#[verifier::ext_equal]
pub struct PieceModel {
    pub index: Option<usize>,
    pub block_size: usize,
    pub length: usize,
    pub hash: Sha1Hash,
    pub blocks: Seq<Block>,
    pub data: Seq<u8>,
    pub refusals: Seq<(usize, PeerId)>,
    pub written: bool,
}

impl View for Piece {
    type V = PieceModel;

    open spec fn view(&self) -> PieceModel {
        PieceModel {
            index: self.index,
            block_size: self.block_size,
            length: self.length,
            hash: self.hash,
            blocks: self.blocks@,
            data: self.data@,
            refusals: self.refusals@,
            written: self.written,
        }
    }
}

/// How many blocks of `block_size` it takes to cover `length` bytes.
pub open spec fn blocks_for(block_size: int, length: int) -> int {
    if length <= 0 {
        0
    } else {
        (length - 1) / block_size + 1
    }
}

/// The block is asked of `peer`.
pub open spec fn asked_of(b: Block, peer: PeerId) -> bool {
    b matches Block::Requested { peer: p, .. } && p == peer
}

/// How many blocks are asked of `peer`.
pub open spec fn count_asked(blocks: Seq<Block>, peer: PeerId) -> nat
    decreases blocks.len(),
{
    if blocks.len() == 0 {
        0
    } else {
        count_asked(blocks.drop_last(), peer) + if asked_of(blocks.last(), peer) {
            1nat
        } else {
            0nat
        }
    }
}

/// How many blocks are there.
pub open spec fn count_obtained(blocks: Seq<Block>) -> nat
    decreases blocks.len(),
{
    if blocks.len() == 0 {
        0
    } else {
        count_obtained(blocks.drop_last()) + if blocks.last() is Obtained {
            1nat
        } else {
            0nat
        }
    }
}

/// A block whose request has been out for too long.
pub open spec fn is_late(b: Block, now: u64) -> bool {
    b matches Block::Requested { since, .. } && now - since > REQUEST_TIMEOUT
}

/// The block after late requests are given up.
pub open spec fn unless_late(b: Block, now: u64) -> Block {
    if is_late(b, now) {
        Block::Free
    } else {
        b
    }
}

/// The peers that let a request time out, once for each block, in block order.
pub open spec fn late_peers(blocks: Seq<Block>, now: u64) -> Seq<PeerId>
    decreases blocks.len(),
{
    if blocks.len() == 0 {
        Seq::empty()
    } else {
        let before = late_peers(blocks.drop_last(), now);
        match blocks.last() {
            Block::Requested { peer, since } if now - since > REQUEST_TIMEOUT => before.push(peer),
            _ => before,
        }
    }
}

/// `base` with `block` written over it from `at` on.
pub open spec fn overwritten(base: Seq<u8>, at: int, block: Seq<u8>) -> Seq<u8> {
    Seq::new(
        base.len(),
        |i: int|
            if at <= i < at + block.len() {
                block[i - at]
            } else {
                base[i]
            },
    )
}

impl PieceModel {
    /// The blocks cover the piece, and the data is all there or not at all.
    pub open spec fn wf(self) -> bool {
        &&& self.block_size > 0
        &&& self.blocks.len() == blocks_for(self.block_size as int, self.length as int)
        &&& self.data.len() == 0 || self.data.len() == self.length
    }

    /// The number of bytes in block `k`.
    pub open spec fn block_length(self, k: int) -> int {
        let left = self.length - k * self.block_size;
        if left < self.block_size {
            left
        } else {
            self.block_size as int
        }
    }

    /// Every block is there.
    pub open spec fn complete(self) -> bool {
        forall|k: int| 0 <= k < self.blocks.len() ==> (#[trigger] self.blocks[k]) is Obtained
    }

    /// Some block can be asked for.
    pub open spec fn available(self) -> bool {
        exists|k: int| 0 <= k < self.blocks.len() && (#[trigger] self.blocks[k]) is Free
    }

    /// Work on the piece has begun and is not done.
    pub open spec fn active(self) -> bool {
        &&& !self.complete()
        &&& exists|k: int| 0 <= k < self.blocks.len() && !((#[trigger] self.blocks[k]) is Free)
    }

    /// Block `k` is there.
    pub open spec fn obtained(self, k: int) -> bool {
        0 <= k < self.blocks.len() && self.blocks[k] is Obtained
    }

    /// Whom block `k` is asked of.
    pub open spec fn asked(self, k: int) -> Option<PeerId> {
        if 0 <= k < self.blocks.len() {
            match self.blocks[k] {
                Block::Requested { peer, .. } => Some(peer),
                _ => None,
            }
        } else {
            None
        }
    }

    /// Block `k` can be asked of `peer`: it is free, and this peer has not
    /// refused it before.
    pub open spec fn free_for(self, k: int, peer: PeerId) -> bool {
        self.blocks[k] is Free && !self.refusals.contains((k as usize, peer))
    }

    /// The first block from `k` on that can be asked of `peer`.
    pub open spec fn first_free_from(self, k: int, peer: PeerId) -> Option<usize>
        decreases self.blocks.len() - k,
    {
        if k < 0 || k >= self.blocks.len() {
            None
        } else if self.free_for(k, peer) {
            Some(k as usize)
        } else {
            self.first_free_from(k + 1, peer)
        }
    }

    /// The first block that can be asked of `peer`.
    pub open spec fn first_free(self, peer: PeerId) -> Option<usize> {
        self.first_free_from(0, peer)
    }

    /// Which blocks are there.
    pub open spec fn bits(self) -> Seq<bool> {
        Seq::new(self.blocks.len(), |k: int| self.blocks[k] is Obtained)
    }

    /// Block `k` asked of `peer`.
    pub open spec fn download(self, k: int, peer: PeerId, now: u64) -> PieceModel {
        PieceModel { blocks: self.blocks.update(k, Block::Requested { peer, since: now }), ..self }
    }

    /// All requests to `peer` given up.
    pub open spec fn reset(self, peer: PeerId) -> PieceModel {
        PieceModel {
            blocks: Seq::new(
                self.blocks.len(),
                |k: int|
                    if asked_of(self.blocks[k], peer) {
                        Block::Free
                    } else {
                        self.blocks[k]
                    },
            ),
            ..self
        }
    }

    /// Block `k` refused by `peer`.
    pub open spec fn reject(self, k: int, peer: PeerId) -> PieceModel {
        if 0 <= k < self.blocks.len() && self.blocks[k] is Requested {
            PieceModel {
                blocks: self.blocks.update(k, Block::Free),
                refusals: self.refusals.push((k as usize, peer)),
                ..self
            }
        } else {
            self
        }
    }

    /// Late requests given up.
    pub open spec fn expire(self, now: u64) -> PieceModel {
        PieceModel {
            blocks: Seq::new(self.blocks.len(), |k: int| unless_late(self.blocks[k], now)),
            ..self
        }
    }

    /// The data that blocks are written into.
    pub open spec fn base(self) -> Seq<u8> {
        if self.data.len() == self.length {
            self.data
        } else {
            Seq::new(self.length as nat, |i: int| 0u8)
        }
    }

    /// The data once block `k` is in.
    pub open spec fn filled(self, k: int, block: Seq<u8>) -> Seq<u8> {
        overwritten(self.base(), k * self.block_size, block)
    }

    /// The piece with nothing downloaded of it.
    pub open spec fn emptied(self) -> PieceModel {
        PieceModel {
            blocks: Seq::new(self.blocks.len(), |k: int| Block::Free),
            data: Seq::empty(),
            refusals: Seq::empty(),
            ..self
        }
    }

    /// The piece once the bytes `block` have come in for block `k`, and the
    /// whole piece's bytes where that completes it. Bytes of the wrong length
    /// only free the block. A piece whose digest is wrong starts over.
    pub open spec fn place(self, k: int, block: Seq<u8>, release: bool) -> (
        PieceModel,
        Option<Seq<u8>>,
    ) {
        if k < 0 || k >= self.blocks.len() {
            (self, None)
        } else if block.len() != self.block_length(k) {
            if self.blocks[k] is Obtained {
                (self, None)
            } else {
                (PieceModel { blocks: self.blocks.update(k, Block::Free), ..self }, None)
            }
        } else {
            let data = self.filled(k, block);
            let next = PieceModel { blocks: self.blocks.update(k, Block::Obtained), data, ..self };
            if !next.complete() {
                (next, None)
            } else if digest::sha1_digest(data) == self.hash.bytes@ {
                (
                    PieceModel {
                        data: if release {
                            Seq::empty()
                        } else {
                            data
                        },
                        refusals: Seq::empty(),
                        written: release,
                        ..next
                    },
                    Some(data),
                )
            } else {
                (next.emptied(), None)
            }
        }
    }

    /// The bytes of block `k`, where the piece still holds them.
    pub open spec fn block_data(self, k: int) -> Option<Seq<u8>> {
        if self.obtained(k) && self.data.len() == self.length {
            Some(self.data.subrange(k * self.block_size, k * self.block_size + self.block_length(k)))
        } else {
            None
        }
    }
}

/// A piece of `length` bytes with every block in state `block`.
pub open spec fn fresh(
    index: Option<usize>,
    block_size: usize,
    length: usize,
    hash: Sha1Hash,
    written: bool,
) -> PieceModel {
    PieceModel {
        index,
        block_size,
        length,
        hash,
        blocks: Seq::new(
            blocks_for(block_size as int, length as int) as nat,
            |k: int|
                if written {
                    Block::Obtained
                } else {
                    Block::Free
                },
        ),
        data: Seq::empty(),
        refusals: Seq::empty(),
        written,
    }
}

/// A block lies within its piece.
pub proof fn lemma_block_bounds(m: PieceModel, k: int)
    requires
        m.wf(),
        0 <= k < m.blocks.len(),
    ensures
        0 <= k * m.block_size,
        k * m.block_size < m.length,
        0 < m.block_length(k),
        k * m.block_size + m.block_length(k) <= m.length,
        k < m.length,
{
    let b = m.block_size as int;
    let l = m.length as int;
    assert(k <= (l - 1) / b);
    assert(0 <= k * b && k * b <= l - 1 && k <= l - 1) by (nonlinear_arith)
        requires
            0 <= k <= (l - 1) / b,
            b > 0,
            l > 0,
    ;
}

/// A byte offset at a block boundary within the piece names a block.
pub proof fn lemma_offset_block(m: PieceModel, begin: int)
    requires
        m.wf(),
        0 <= begin < m.length,
    ensures
        0 <= begin / (m.block_size as int) < m.blocks.len(),
{
    let b = m.block_size as int;
    let l = m.length as int;
    assert(0 <= begin / b && begin / b <= (l - 1) / b) by (nonlinear_arith)
        requires
            0 <= begin <= l - 1,
            b > 0,
    ;
}

/// How one block's change shows in a peer's count.
pub proof fn lemma_count_update(blocks: Seq<Block>, k: int, b: Block, peer: PeerId)
    requires
        0 <= k < blocks.len(),
    ensures
        count_asked(blocks.update(k, b), peer) == count_asked(blocks, peer) - (if asked_of(
            blocks[k],
            peer,
        ) {
            1int
        } else {
            0int
        }) + (if asked_of(b, peer) {
            1int
        } else {
            0int
        }),
    decreases blocks.len(),
{
    let u = blocks.update(k, b);
    if k == blocks.len() - 1 {
        assert(u.drop_last() =~= blocks.drop_last());
    } else {
        assert(u.drop_last() =~= blocks.drop_last().update(k, b));
        lemma_count_update(blocks.drop_last(), k, b, peer);
    }
}

/// Where no block is asked of a peer, its count is zero, and conversely.
pub proof fn lemma_count_zero(blocks: Seq<Block>, peer: PeerId)
    ensures
        count_asked(blocks, peer) == 0 <==> forall|k: int|
            0 <= k < blocks.len() ==> !asked_of(#[trigger] blocks[k], peer),
    decreases blocks.len(),
{
    if blocks.len() > 0 {
        lemma_count_zero(blocks.drop_last(), peer);
        assert(blocks.last() == blocks[blocks.len() - 1]);
        if count_asked(blocks, peer) == 0 {
            assert forall|k: int| 0 <= k < blocks.len() implies !asked_of(
                #[trigger] blocks[k],
                peer,
            ) by {
                if k < blocks.len() - 1 {
                    assert(blocks[k] == blocks.drop_last()[k]);
                }
            }
        } else if forall|k: int| 0 <= k < blocks.len() ==> !asked_of(#[trigger] blocks[k], peer) {
            assert forall|k: int| 0 <= k < blocks.drop_last().len() implies !asked_of(
                #[trigger] blocks.drop_last()[k],
                peer,
            ) by {
                assert(blocks[k] == blocks.drop_last()[k]);
            }
        }
    }
}

/// Giving up a peer's requests leaves it none and every other peer all of its own.
pub proof fn lemma_count_reset(m: PieceModel, gone: PeerId, peer: PeerId)
    ensures
        count_asked(m.reset(gone).blocks, peer) == if peer == gone {
            0
        } else {
            count_asked(m.blocks, peer)
        },
    decreases m.blocks.len(),
{
    let after = m.reset(gone).blocks;
    if m.blocks.len() > 0 {
        let shorter = PieceModel { blocks: m.blocks.drop_last(), ..m };
        lemma_count_reset(shorter, gone, peer);
        assert(after.drop_last() =~= shorter.reset(gone).blocks);
    }
}

/// How often `peer` occurs in a list.
pub open spec fn occurrences(s: Seq<PeerId>, peer: PeerId) -> nat
    decreases s.len(),
{
    if s.len() == 0 {
        0
    } else {
        occurrences(s.drop_last(), peer) + if s.last() == peer {
            1nat
        } else {
            0nat
        }
    }
}

/// The requests that time out are exactly those that a peer's count loses.
pub proof fn lemma_count_expire(m: PieceModel, now: u64, peer: PeerId)
    ensures
        count_asked(m.expire(now).blocks, peer) + occurrences(late_peers(m.blocks, now), peer)
            == count_asked(m.blocks, peer),
    decreases m.blocks.len(),
{
    let after = m.expire(now).blocks;
    if m.blocks.len() > 0 {
        let shorter = PieceModel { blocks: m.blocks.drop_last(), ..m };
        lemma_count_expire(shorter, now, peer);
        assert(after.drop_last() =~= shorter.expire(now).blocks);
        let before = late_peers(m.blocks.drop_last(), now);
        match m.blocks.last() {
            Block::Requested { peer: p, since } => {
                if now - since > REQUEST_TIMEOUT {
                    assert(before.push(p).drop_last() =~= before);
                }
            },
            _ => {},
        }
    }
}

impl Piece {
    /// The blocks cover the piece, and the data is all there or not at all.
    pub open spec fn wf(self) -> bool {
        self@.wf()
    }

    /// A piece of `length` bytes, all of it still to be had unless it has been
    /// written already.
    pub fn new(
        index: Option<usize>,
        block_size: usize,
        length: usize,
        hash: Sha1Hash,
        written: bool,
    ) -> (r: Piece)
        requires
            block_size > 0,
        ensures
            r.wf(),
            r@ == fresh(index, block_size, length, hash, written),
    {
        let num_blocks: usize = if length == 0 {
            0
        } else {
            assert(0 <= (length - 1) / (block_size as int) <= length - 1) by (nonlinear_arith)
                requires
                    length > 0,
                    block_size > 0,
            ;
            (length - 1) / block_size + 1
        };
        let block = if written {
            Block::Obtained
        } else {
            Block::Free
        };
        let mut blocks: Vec<Block> = Vec::new();
        let mut k: usize = 0;
        while k < num_blocks
            invariant
                k <= num_blocks,
                blocks@.len() == k,
                forall|j: int| 0 <= j < k ==> #[trigger] blocks@[j] == block,
            decreases num_blocks - k,
        {
            blocks.push(block);
            k += 1;
        }
        let r = Piece {
            index,
            block_size,
            length,
            hash,
            blocks,
            data: Vec::new(),
            refusals: Vec::new(),
            written,
        };
        assert(r@ =~= fresh(index, block_size, length, hash, written));
        r
    }

    /// A piece that is there in full.
    pub fn from_slice(block_size: usize, hash: Sha1Hash, bytes: &[u8]) -> (r: Piece)
        requires
            block_size > 0,
        ensures
            r.wf(),
            r@ == (PieceModel {
                data: bytes@,
                written: false,
                ..fresh(None, block_size, bytes@.len() as usize, hash, true)
            }),
    {
        let mut r = Piece::new(None, block_size, bytes.len(), hash, true);
        let mut i: usize = 0;
        while i < bytes.len()
            invariant
                i <= bytes.len(),
                r.data@ == bytes@.take(i as int),
                (PieceModel { data: Seq::empty(), ..r@ }) == fresh(
                    None,
                    block_size,
                    bytes@.len() as usize,
                    hash,
                    true,
                ),
            decreases bytes.len() - i,
        {
            assert(bytes@.take(i as int + 1) =~= bytes@.take(i as int).push(bytes@[i as int]));
            r.data.push(bytes[i]);
            i += 1;
        }
        assert(r.data@ =~= bytes@);
        r.written = false;
        r
    }

    /// Starts over with another length.
    pub fn set_length_and_reset(&mut self, length: usize)
        requires
            old(self).wf(),
        ensures
            final(self).wf(),
            final(self)@ == fresh(
                old(self).index,
                old(self).block_size,
                length,
                old(self).hash,
                false,
            ),
    {
        *self = Piece::new(self.index, self.block_size, length, self.hash, false);
    }

    /// The number of blocks.
    pub fn num_blocks(&self) -> (r: usize)
        ensures
            r == self@.blocks.len(),
    {
        self.blocks.len()
    }

    /// The number of blocks that are there.
    pub fn obtained_blocks(&self) -> (r: usize)
        ensures
            r == count_obtained(self@.blocks),
    {
        let mut n: usize = 0;
        let mut k: usize = 0;
        while k < self.blocks.len()
            invariant
                k <= self.blocks.len(),
                n <= k,
                n == count_obtained(self@.blocks.take(k as int)),
            decreases self.blocks.len() - k,
        {
            let ghost seen = self@.blocks.take(k as int + 1);
            assert(seen.drop_last() =~= self@.blocks.take(k as int));
            if matches!(self.blocks[k], Block::Obtained) {
                n += 1;
            }
            k += 1;
        }
        assert(self@.blocks.take(k as int) =~= self@.blocks);
        n
    }

    /// Whether the piece has been handed over for writing.
    pub fn is_written(&self) -> (r: bool)
        ensures
            r == self@.written,
    {
        self.written
    }

    /// Whether some block can be asked for.
    pub fn is_available(&self) -> (r: bool)
        ensures
            r == self@.available(),
    {
        let mut k: usize = 0;
        while k < self.blocks.len()
            invariant
                k <= self.blocks.len(),
                forall|j: int| 0 <= j < k ==> !((#[trigger] self@.blocks[j]) is Free),
            decreases self.blocks.len() - k,
        {
            if matches!(self.blocks[k], Block::Free) {
                assert(self@.blocks[k as int] is Free);
                return true;
            }
            k += 1;
        }
        false
    }

    /// Whether every block is there.
    pub fn is_complete(&self) -> (r: bool)
        ensures
            r == self@.complete(),
    {
        let mut k: usize = 0;
        while k < self.blocks.len()
            invariant
                k <= self.blocks.len(),
                forall|j: int| 0 <= j < k ==> (#[trigger] self@.blocks[j]) is Obtained,
            decreases self.blocks.len() - k,
        {
            if !matches!(self.blocks[k], Block::Obtained) {
                assert(!(self@.blocks[k as int] is Obtained));
                return false;
            }
            k += 1;
        }
        true
    }

    /// Whether work on the piece has begun and is not done.
    pub fn is_active(&self) -> (r: bool)
        ensures
            r == self@.active(),
    {
        if self.is_complete() {
            return false;
        }
        let mut k: usize = 0;
        while k < self.blocks.len()
            invariant
                k <= self.blocks.len(),
                !self@.complete(),
                forall|j: int| 0 <= j < k ==> (#[trigger] self@.blocks[j]) is Free,
            decreases self.blocks.len() - k,
        {
            if !matches!(self.blocks[k], Block::Free) {
                assert(!(self@.blocks[k as int] is Free));
                return true;
            }
            k += 1;
        }
        false
    }

    /// Whether a block is there.
    pub fn has_obtained(&self, block: usize) -> (r: bool)
        ensures
            r == self@.obtained(block as int),
    {
        block < self.blocks.len() && matches!(self.blocks[block], Block::Obtained)
    }

    /// Whom a block is asked of.
    pub fn who_downloading(&self, block: usize) -> (r: Option<PeerId>)
        ensures
            r == self@.asked(block as int),
    {
        if block < self.blocks.len() {
            match self.blocks[block] {
                Block::Requested { peer, .. } => Some(peer),
                _ => None,
            }
        } else {
            None
        }
    }

    /// Whether `peer` has refused a block before.
    fn has_refused(&self, block: usize, peer: &PeerId) -> (r: bool)
        ensures
            r == self@.refusals.contains((block, *peer)),
    {
        let mut i: usize = 0;
        while i < self.refusals.len()
            invariant
                i <= self.refusals.len(),
                forall|j: int| 0 <= j < i ==> #[trigger] self@.refusals[j] != (block, *peer),
            decreases self.refusals.len() - i,
        {
            if self.refusals[i].0 == block && self.refusals[i].1 == *peer {
                assert(self@.refusals[i as int] == (block, *peer));
                return true;
            }
            i += 1;
        }
        false
    }

    /// The first block that can be asked of `peer`.
    pub fn find_available_block(&self, peer: &PeerId) -> (r: Option<usize>)
        ensures
            r == self@.first_free(*peer),
            r matches Some(k) ==> k < self@.blocks.len() && self@.blocks[k as int] is Free,
    {
        let mut k: usize = 0;
        while k < self.blocks.len()
            invariant
                k <= self.blocks.len(),
                self@.first_free(*peer) == self@.first_free_from(k as int, *peer),
            decreases self.blocks.len() - k,
        {
            if matches!(self.blocks[k], Block::Free) && !self.has_refused(k, peer) {
                return Some(k);
            }
            k += 1;
        }
        None
    }

    /// Which blocks are there.
    pub fn to_bitfield(&self) -> (r: Bitfield)
        ensures
            r.wf(),
            r@ == self@.bits(),
    {
        let mut r = Bitfield::new(self.blocks.len());
        let mut k: usize = 0;
        while k < self.blocks.len()
            invariant
                k <= self.blocks.len(),
                r.wf(),
                r.length == self.blocks@.len(),
                forall|j: int|
                    0 <= j < self.blocks@.len() ==> #[trigger] r@[j] == (j < k
                        && self@.blocks[j] is Obtained),
            decreases self.blocks.len() - k,
        {
            if matches!(self.blocks[k], Block::Obtained) {
                r.set(k);
            }
            k += 1;
        }
        assert(r@ =~= self@.bits());
        r
    }

    /// The number of blocks asked of `peer`.
    pub fn num_downloading(&self, peer: &PeerId) -> (r: usize)
        ensures
            r == count_asked(self@.blocks, *peer),
            r <= self@.blocks.len(),
    {
        let mut n: usize = 0;
        let mut k: usize = 0;
        while k < self.blocks.len()
            invariant
                k <= self.blocks.len(),
                n <= k,
                n == count_asked(self@.blocks.take(k as int), *peer),
            decreases self.blocks.len() - k,
        {
            let ghost seen = self@.blocks.take(k as int + 1);
            assert(seen.drop_last() =~= self@.blocks.take(k as int));
            if let Block::Requested { peer: p, .. } = self.blocks[k] {
                if p == *peer {
                    n += 1;
                }
            }
            k += 1;
        }
        assert(self@.blocks.take(k as int) =~= self@.blocks);
        n
    }

    /// Marks a block as asked of `peer`.
    pub fn download(&mut self, block: usize, peer: PeerId, now: u64)
        requires
            old(self).wf(),
            block < old(self)@.blocks.len(),
        ensures
            final(self).wf(),
            final(self)@ == old(self)@.download(block as int, peer, now),
    {
        self.blocks[block] = Block::Requested { peer, since: now };
        assert(self@ =~= old(self)@.download(block as int, peer, now));
    }

    /// Gives up all requests to `peer`.
    pub fn reset(&mut self, peer: &PeerId)
        requires
            old(self).wf(),
        ensures
            final(self).wf(),
            final(self)@ == old(self)@.reset(*peer),
    {
        let ghost after = old(self)@.reset(*peer).blocks;
        let mut k: usize = 0;
        while k < self.blocks.len()
            invariant
                k <= self.blocks.len(),
                self.blocks@.len() == old(self).blocks@.len(),
                after == old(self)@.reset(*peer).blocks,
                (PieceModel { blocks: old(self).blocks@, ..self@ }) == old(self)@,
                forall|j: int| 0 <= j < k ==> #[trigger] self.blocks@[j] == after[j],
                forall|j: int|
                    k <= j < self.blocks@.len() ==> #[trigger] self.blocks@[j] == old(
                        self,
                    ).blocks@[j],
            decreases self.blocks.len() - k,
        {
            if let Block::Requested { peer: p, .. } = self.blocks[k] {
                if p == *peer {
                    self.blocks[k] = Block::Free;
                }
            }
            k += 1;
        }
        assert(self@ =~= old(self)@.reset(*peer));
    }

    /// Takes note that `peer` will not give a block.
    pub fn reject(&mut self, block: usize, peer: PeerId)
        requires
            old(self).wf(),
        ensures
            final(self).wf(),
            final(self)@ == old(self)@.reject(block as int, peer),
    {
        if block < self.blocks.len() && matches!(self.blocks[block], Block::Requested { .. }) {
            self.blocks[block] = Block::Free;
            self.refusals.push((block, peer));
            assert(self@ =~= old(self)@.reject(block as int, peer));
        }
    }

    /// Gives up the requests that have been out for too long, and returns the
    /// peers that let them, once for each block.
    pub fn check_timeout(&mut self, now: u64) -> (r: Vec<PeerId>)
        requires
            old(self).wf(),
        ensures
            final(self).wf(),
            final(self)@ == old(self)@.expire(now),
            r@ == late_peers(old(self)@.blocks, now),
    {
        let ghost after = old(self)@.expire(now).blocks;
        let ghost before = old(self)@.blocks;
        let mut r: Vec<PeerId> = Vec::new();
        let mut k: usize = 0;
        while k < self.blocks.len()
            invariant
                k <= self.blocks.len(),
                before == old(self)@.blocks,
                self.blocks@.len() == before.len(),
                after == old(self)@.expire(now).blocks,
                (PieceModel { blocks: before, ..self@ }) == old(self)@,
                forall|j: int| 0 <= j < k ==> #[trigger] self.blocks@[j] == after[j],
                forall|j: int|
                    k <= j < self.blocks@.len() ==> #[trigger] self.blocks@[j] == before[j],
                r@ == late_peers(before.take(k as int), now),
            decreases self.blocks.len() - k,
        {
            assert(before.take(k as int + 1).drop_last() =~= before.take(k as int));
            if let Block::Requested { peer, since } = self.blocks[k] {
                if now >= since && now - since > REQUEST_TIMEOUT {
                    self.blocks[k] = Block::Free;
                    r.push(peer);
                }
            }
            k += 1;
        }
        assert(before.take(k as int) =~= before);
        assert(self@ =~= old(self)@.expire(now));
        r
    }

    /// The bytes of a block, where the piece still holds them.
    pub fn get(&self, block: usize) -> (r: Option<Vec<u8>>)
        requires
            self.wf(),
        ensures
            match r {
                Some(bytes) => self@.block_data(block as int) == Some(bytes@),
                None => self@.block_data(block as int) is None,
            },
    {
        if !self.has_obtained(block) || self.data.len() != self.length {
            return None;
        }
        proof {
            lemma_block_bounds(self@, block as int);
        }
        let begin = block * self.block_size;
        let end = if self.length - begin < self.block_size {
            self.length
        } else {
            begin + self.block_size
        };
        let mut bytes: Vec<u8> = Vec::new();
        let mut i = begin;
        while i < end
            invariant
                begin <= i <= end <= self.data@.len(),
                bytes@ == self.data@.subrange(begin as int, i as int),
            decreases end - i,
        {
            assert(self.data@.subrange(begin as int, i + 1) =~= self.data@.subrange(
                begin as int,
                i as int,
            ).push(self.data@[i as int]));
            bytes.push(self.data[i]);
            i += 1;
        }
        Some(bytes)
    }

    /// Frees every block and drops what was downloaded.
    fn start_over(&mut self)
        requires
            old(self).wf(),
        ensures
            final(self).wf(),
            final(self)@ == old(self)@.emptied(),
    {
        let mut k: usize = 0;
        while k < self.blocks.len()
            invariant
                k <= self.blocks.len(),
                self.blocks@.len() == old(self).blocks@.len(),
                (PieceModel { blocks: old(self).blocks@, ..self@ }) == old(self)@,
                forall|j: int| 0 <= j < k ==> #[trigger] self.blocks@[j] == Block::Free,
            decreases self.blocks.len() - k,
        {
            self.blocks[k] = Block::Free;
            k += 1;
        }
        self.data = Vec::new();
        self.refusals = Vec::new();
        assert(self@ =~= old(self)@.emptied());
    }

    /// Puts a block's bytes where they belong.
    fn fill(&mut self, block: usize, bytes: &Vec<u8>)
        requires
            old(self).wf(),
            block < old(self)@.blocks.len(),
            bytes@.len() == old(self)@.block_length(block as int),
        ensures
            final(self).wf(),
            final(self)@ == (PieceModel {
                data: old(self)@.filled(block as int, bytes@),
                ..old(self)@
            }),
    {
        proof {
            lemma_block_bounds(self@, block as int);
        }
        let ghost base = self@.base();
        if self.data.len() != self.length {
            let mut zeros: Vec<u8> = Vec::new();
            let mut i: usize = 0;
            while i < self.length
                invariant
                    i <= self.length,
                    zeros@.len() == i,
                    forall|j: int| 0 <= j < i ==> zeros@[j] == 0,
                decreases self.length - i,
            {
                zeros.push(0);
                i += 1;
            }
            self.data = zeros;
        }
        assert(self.data@ =~= base);
        let begin = block * self.block_size;
        let mut i: usize = 0;
        while i < bytes.len()
            invariant
                i <= bytes@.len(),
                begin + bytes@.len() <= base.len(),
                base.len() == old(self).length,
                self.data@.len() == base.len(),
                (PieceModel { data: old(self).data@, ..self@ }) == old(self)@,
                forall|j: int|
                    0 <= j < base.len() ==> #[trigger] self.data@[j] == (if begin <= j < begin + i {
                        bytes@[j - begin]
                    } else {
                        base[j]
                    }),
            decreases bytes@.len() - i,
        {
            self.data[begin + i] = bytes[i];
            i += 1;
        }
        assert(self.data@ =~= old(self)@.filled(block as int, bytes@));
        assert(self@ =~= (PieceModel {
            data: old(self)@.filled(block as int, bytes@),
            ..old(self)@
        }));
    }

    /// Takes a block's bytes in, and returns the piece where that completes it.
    pub fn place(&mut self, block: usize, bytes: Vec<u8>, release: bool) -> (r: Option<Vec<u8>>)
        requires
            old(self).wf(),
        ensures
            final(self).wf(),
            final(self)@ == old(self)@.place(block as int, bytes@, release).0,
            match r {
                Some(piece) => old(self)@.place(block as int, bytes@, release).1 == Some(piece@)
                    && piece@.len() == old(self).length,
                None => old(self)@.place(block as int, bytes@, release).1 is None,
            },
    {
        if block >= self.blocks.len() {
            return None;
        }
        proof {
            lemma_block_bounds(self@, block as int);
        }
        let begin = block * self.block_size;
        let expected = if self.length - begin < self.block_size {
            self.length - begin
        } else {
            self.block_size
        };
        if bytes.len() != expected {
            if !matches!(self.blocks[block], Block::Obtained) {
                self.blocks[block] = Block::Free;
            }
            return None;
        }
        self.fill(block, &bytes);
        self.blocks[block] = Block::Obtained;
        let ghost next = self@;
        assert(next =~= (PieceModel {
            blocks: old(self)@.blocks.update(block as int, Block::Obtained),
            data: old(self)@.filled(block as int, bytes@),
            ..old(self)@
        }));
        if !self.is_complete() {
            return None;
        }
        let actual = digest::sha1(self.data.as_slice());
        if actual == self.hash {
            assert(digest::sha1_digest(next.data) == self.hash.bytes@);
            self.refusals = Vec::new();
            self.written = release;
            let piece = if release {
                let mut data: Vec<u8> = Vec::new();
                std::mem::swap(&mut data, &mut self.data);
                data
            } else {
                crate::bytes::copy_bytes(self.data.as_slice())
            };
            assert(self@ =~= old(self)@.place(block as int, bytes@, release).0);
            Some(piece)
        } else {
            proof {
                if digest::sha1_digest(next.data) == self.hash.bytes@ {
                    assert(actual.bytes =~= self.hash.bytes);
                    assert(false);
                }
            }
            self.start_over();
            None
        }
    }
}

} // verus!
