//! Allocation bitmaps: one bit per inode or data block, stored in a run of disk blocks.
use super::block_cache::{lemma_u64_splice, splice, u64_at, u64_bytes, BlockCacheManager};
use super::block_dev::{BlockDevice, BLOCK_SZ};
use vstd::arithmetic::div_mod::lemma_fundamental_div_mod_converse;
use vstd::prelude::*;
use vstd::std_specs::bits::axiom_u64_trailing_ones;

verus! {

/// Bits held by one bitmap block.
pub const BLOCK_BITS: usize = BLOCK_SZ * 8;

/// Bit `i` (0 = least significant) of `w`.
pub open spec fn word_bit(w: u64, i: int) -> bool {
    (w >> (i as u64)) & 1u64 == 1u64
}

/// Bit `b` of the bitmap that starts at block `start`: bit `b % 64` of the
/// little-endian word `(b % BLOCK_BITS) / 64` of block `start + b / BLOCK_BITS`.
pub open spec fn bitmap_bit(disk: Seq<Seq<u8>>, start: int, b: int) -> bool {
    word_bit(u64_at(disk[start + b / BLOCK_BITS as int], ((b % BLOCK_BITS as int) / 64) * 8), b % 64)
}

proof fn lemma_word_set_bit(w: u64, t: u64, j: u64)
    requires
        t < 64,
        j < 64,
    ensures
        ((w | (1u64 << t)) >> j) & 1u64 == 1u64 <==> (j == t || (w >> j) & 1u64 == 1u64),
{
    assert(((w | (1u64 << t)) >> j) & 1u64 == 1u64 <==> (j == t || (w >> j) & 1u64 == 1u64))
        by (bit_vector)
        requires
            t < 64,
            j < 64,
    ;
}

proof fn lemma_word_clear_bit(w: u64, t: u64, j: u64)
    requires
        t < 64,
        j < 64,
        (w >> t) & 1u64 == 1u64,
    ensures
        (1u64 << t) <= w,
        (((w - (1u64 << t)) as u64) >> j) & 1u64 == 1u64 <==> (j != t && (w >> j) & 1u64 == 1u64),
{
    assert((1u64 << t) <= w) by (bit_vector)
        requires
            t < 64,
            (w >> t) & 1u64 == 1u64,
    ;
    assert((((w - (1u64 << t)) as u64) >> j) & 1u64 == 1u64 <==> (j != t && (w >> j) & 1u64 == 1u64))
        by (bit_vector)
        requires
            t < 64,
            j < 64,
            (w >> t) & 1u64 == 1u64,
    ;
}

proof fn lemma_full_word(j: u64)
    requires
        j < 64,
    ensures
        (0xffff_ffff_ffff_ffffu64 >> j) & 1u64 == 1u64,
{
    assert((0xffff_ffff_ffff_ffffu64 >> j) & 1u64 == 1u64) by (bit_vector)
        requires
            j < 64,
    ;
}

/// `b` splits into block `b / BLOCK_BITS`, word `(b % BLOCK_BITS) / 64` and bit `b % 64`.
proof fn lemma_bit_position(b: int, blk: int, word: int, inner: int)
    requires
        0 <= blk,
        0 <= word < 64,
        0 <= inner < 64,
        b == blk * 4096 + word * 64 + inner,
    ensures
        b / BLOCK_BITS as int == blk,
        (b % BLOCK_BITS as int) / 64 == word,
        b % 64 == inner,
        b % BLOCK_BITS as int == word * 64 + inner,
{
    lemma_fundamental_div_mod_converse(b, 4096, blk, word * 64 + inner);
    lemma_fundamental_div_mod_converse(word * 64 + inner, 64, word, inner);
    assert(b == (blk * 64 + word) * 64 + inner) by (nonlinear_arith)
        requires
            b == blk * 4096 + word * 64 + inner,
    ;
    lemma_fundamental_div_mod_converse(b, 64, blk * 64 + word, inner);
}

/// Every non-negative `b` splits as in `lemma_bit_position`.
proof fn lemma_bit_split(b: int)
    requires
        0 <= b,
    ensures
        b == (b / 4096) * 4096 + ((b % 4096) / 64) * 64 + b % 64,
        0 <= (b % 4096) / 64 < 64,
        0 <= b / 4096,
        0 <= b % 64 < 64,
{
    assert(b == (b / 4096) * 4096 + b % 4096) by (nonlinear_arith);
    let r = b % 4096;
    assert(r == (r / 64) * 64 + r % 64) by (nonlinear_arith);
    assert(0 <= r / 64 < 64) by (nonlinear_arith)
        requires
            0 <= r < 4096,
    ;
    lemma_bit_position(b, b / 4096, r / 64, r % 64);
}

/// Splits a bit index into (block, 64-bit word in the block, bit in the word).
fn decomposition(bit: usize) -> (r: (usize, usize, usize))
    ensures
        r.0 == bit / BLOCK_BITS,
        r.1 == (bit % BLOCK_BITS) / 64,
        r.2 == bit % 64,
{
    let block_pos = bit / BLOCK_BITS;
    let rest = bit % BLOCK_BITS;
    proof {
        lemma_bit_split(bit as int);
    }
    (block_pos, rest / 64, rest % 64)
}

/// A bitmap of `blocks` blocks starting at block `start_block_id`.
///
/// Only the location lives in memory; the bits themselves are on disk.
pub struct Bitmap {
    start_block_id: usize,
    blocks: usize,
}

impl Bitmap {
    /// The first block of the bitmap.
    pub closed spec fn start(&self) -> int {
        self.start_block_id as int
    }

    /// Number of blocks of the bitmap.
    pub closed spec fn num_blocks(&self) -> int {
        self.blocks as int
    }

    /// The location of a bitmap is made of natural numbers.
    pub proof fn lemma_nonneg(&self)
        ensures
            self.start() >= 0,
            self.num_blocks() >= 0,
            self.bits(Seq::empty()).len() == self.num_blocks() * BLOCK_BITS,
    {
    }

    /// The bits of the bitmap on `disk`.
    pub open spec fn bits(&self, disk: Seq<Seq<u8>>) -> Seq<bool> {
        Seq::new((self.num_blocks() * BLOCK_BITS) as nat, |b: int| bitmap_bit(disk, self.start(), b))
    }

    /// The bitmap lies on a disk of `n` blocks, and its size fits in a `usize`.
    pub open spec fn fits(&self, n: nat) -> bool {
        &&& self.start() + self.num_blocks() <= n
        &&& self.num_blocks() * BLOCK_BITS <= usize::MAX
        &&& self.start() + self.num_blocks() <= usize::MAX
    }

    /// The bitmap occupying `blocks` blocks from `start_block_id`.
    pub fn new(start_block_id: usize, blocks: usize) -> (r: Self)
        ensures
            r.start() == start_block_id,
            r.num_blocks() == blocks,
    {
        Self { start_block_id, blocks }
    }

    /// Number of bits of the bitmap.
    pub fn maximum(&self) -> (r: usize)
        requires
            self.num_blocks() * BLOCK_BITS <= usize::MAX,
        ensures
            r == self.num_blocks() * BLOCK_BITS,
    {
        self.blocks * BLOCK_BITS
    }

    /// Sets the lowest clear bit and returns its index, or `None` when every bit is set.
    ///
    /// Only the bitmap block that holds the bit changes.
    pub fn alloc_bit<D: BlockDevice>(&self, cache: &mut BlockCacheManager<D>) -> (r: Option<usize>)
        requires
            old(cache).wf(),
            self.fits(old(cache)@.len()),
        ensures
            final(cache).wf(),
            final(cache)@.len() == old(cache)@.len(),
            match r {
                Some(b) => {
                    &&& b < self.bits(old(cache)@).len()
                    &&& !self.bits(old(cache)@)[b as int]
                    &&& forall|c: int| 0 <= c < b ==> #[trigger] self.bits(old(cache)@)[c]
                    &&& self.bits(final(cache)@) == self.bits(old(cache)@).update(b as int, true)
                    &&& forall|k: int|
                        0 <= k < old(cache)@.len() && k != self.start() + (b / BLOCK_BITS) as int
                            ==> #[trigger] final(cache)@[k] == old(cache)@[k]
                },
                None => {
                    &&& forall|c: int|
                        0 <= c < self.bits(old(cache)@).len() ==> #[trigger] self.bits(old(cache)@)[c]
                    &&& final(cache)@ == old(cache)@
                },
            },
    {
        let ghost disk = cache@;
        let mut block_id: usize = 0;
        while block_id < self.blocks
            invariant
                cache.wf(),
                cache@ == disk,
                disk == old(cache)@,
                self.fits(disk.len()),
                block_id <= self.blocks,
                forall|c: int| 0 <= c < block_id * 4096 ==> #[trigger] bitmap_bit(disk, self.start(), c),
            decreases self.blocks - block_id,
        {
            proof {
                cache.lemma_wf();
            }
            let mut word: usize = 0;
            while word < 64
                invariant
                    cache.wf(),
                    cache@ == disk,
                    disk == old(cache)@,
                    self.fits(disk.len()),
                    block_id < self.blocks,
                    word <= 64,
                    forall|c: int|
                        0 <= c < block_id * 4096 + word * 64 ==> #[trigger] bitmap_bit(
                            disk,
                            self.start(),
                            c,
                        ),
                decreases 64 - word,
            {
                proof {
                    cache.lemma_wf();
                }
                let w = cache.read_u64(self.start_block_id + block_id, word * 8);
                if w != u64::MAX {
                    let t = w.trailing_ones() as usize;
                    proof {
                        axiom_u64_trailing_ones(w);
                    }
                    let nw = w | (1u64 << t);
                    cache.write_u64(self.start_block_id + block_id, word * 8, nw);
                    let b = block_id * 4096 + word * 64 + t;
                    proof {
                        assert(block_id * 4096 + word * 64 + t < self.blocks * 4096) by (nonlinear_arith)
                            requires
                                block_id < self.blocks,
                                word < 64,
                                t < 64,
                        ;
                        lemma_bit_position(b as int, block_id as int, word as int, t as int);
                        let blk = self.start() + block_id;
                        assert forall|c: int| 0 <= c < b implies #[trigger] self.bits(disk)[c] by {
                            if c >= block_id * 4096 + word * 64 {
                                lemma_bit_position(
                                    c,
                                    block_id as int,
                                    word as int,
                                    c - (block_id * 4096 + word * 64),
                                );
                            }
                        }
                        assert forall|c: int| 0 <= c < self.bits(disk).len() implies #[trigger] self.bits(
                            cache@,
                        )[c] == self.bits(disk).update(b as int, true)[c] by {
                            lemma_bit_split(c);
                            let cb = c / 4096;
                            let cw = (c % 4096) / 64;
                            let ci = c % 64;
                            assert(cb < self.blocks) by (nonlinear_arith)
                                requires
                                    c < self.blocks * 4096,
                                    c == cb * 4096 + cw * 64 + ci,
                                    0 <= cw < 64,
                                    0 <= ci < 64,
                            ;
                            if cb == block_id {
                                lemma_u64_splice(disk[blk], word * 8, nw, cw * 8);
                                if cw == word {
                                    lemma_word_set_bit(w, t as u64, ci as u64);
                                }
                            }
                        }
                        assert(self.bits(cache@) =~= self.bits(disk).update(b as int, true));
                    }
                    return Some(b);
                }
                proof {
                    assert forall|c: int|
                        0 <= c < block_id * 4096 + (word + 1) * 64 implies #[trigger] bitmap_bit(
                        disk,
                        self.start(),
                        c,
                    ) by {
                        if c >= block_id * 4096 + word * 64 {
                            lemma_bit_position(
                                c,
                                block_id as int,
                                word as int,
                                c - (block_id * 4096 + word * 64),
                            );
                            lemma_full_word((c - (block_id * 4096 + word * 64)) as u64);
                        }
                    }
                }
                word = word + 1;
            }
            block_id = block_id + 1;
        }
        None
    }

    /// Clears bit `bit`, which must be set.
    ///
    /// Only the bitmap block that holds the bit changes.
    pub fn dealloc<D: BlockDevice>(&self, cache: &mut BlockCacheManager<D>, bit: usize)
        requires
            old(cache).wf(),
            self.fits(old(cache)@.len()),
            bit < self.bits(old(cache)@).len(),
            self.bits(old(cache)@)[bit as int],
        ensures
            final(cache).wf(),
            final(cache)@.len() == old(cache)@.len(),
            self.bits(final(cache)@) == self.bits(old(cache)@).update(bit as int, false),
            forall|k: int|
                0 <= k < old(cache)@.len() && k != self.start() + (bit / BLOCK_BITS) as int
                    ==> #[trigger] final(cache)@[k] == old(cache)@[k],
    {
        let ghost disk = cache@;
        let (block_pos, bits64_pos, inner_pos) = decomposition(bit);
        proof {
            cache.lemma_wf();
            lemma_bit_split(bit as int);
            assert(block_pos < self.blocks) by (nonlinear_arith)
                requires
                    bit < self.blocks * 4096,
                    bit == block_pos * 4096 + bits64_pos * 64 + inner_pos,
                    0 <= bits64_pos < 64,
                    0 <= inner_pos < 64,
            ;
            assert(self.bits(disk)[bit as int]);
        }
        let blk = block_pos + self.start_block_id;
        let w = cache.read_u64(blk, bits64_pos * 8);
        proof {
            lemma_word_clear_bit(w, inner_pos as u64, 0);
        }
        let nw = w - (1u64 << inner_pos);
        cache.write_u64(blk, bits64_pos * 8, nw);
        proof {
            assert forall|c: int| 0 <= c < self.bits(disk).len() implies #[trigger] self.bits(cache@)[c]
                == self.bits(disk).update(bit as int, false)[c] by {
                lemma_bit_split(c);
                let cb = c / 4096;
                let cw = (c % 4096) / 64;
                let ci = c % 64;
                assert(cb < self.blocks) by (nonlinear_arith)
                    requires
                        c < self.blocks * 4096,
                        c == cb * 4096 + cw * 64 + ci,
                        0 <= cw < 64,
                        0 <= ci < 64,
                ;
                if cb == block_pos {
                    lemma_u64_splice(disk[blk as int], bits64_pos * 8, nw, cw * 8);
                    if cw == bits64_pos {
                        lemma_word_clear_bit(w, inner_pos as u64, ci as u64);
                    }
                }
            }
            assert(self.bits(cache@) =~= self.bits(disk).update(bit as int, false));
        }
    }
}

} // verus!
