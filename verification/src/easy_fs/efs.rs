//! The file system as a whole: where each area of the disk lies, and the
//! allocation of inodes and data blocks.
use super::bitmap::{bitmap_bit, word_bit, Bitmap, BLOCK_BITS};
use super::block_cache::{block_cache_sync_all, splice, u32_at, u64_at, BlockCacheManager};
use super::block_dev::{blocks_well_sized, BlockDevice, BLOCK_SZ};
use super::layout::{
    inode_bytes, inode_model_of, lemma_inode_roundtrip, DiskInode, DiskInodeType, InodeModel,
    SuperBlock, DISK_INODE_SZ, EFS_MAGIC, INODE_DIRECT_COUNT, SUPER_BLOCK_SZ,
};
use vstd::bytes::{
    lemma_auto_spec_u64_to_from_le_bytes, spec_u64_to_le_bytes_open, spec_u64_to_le_bytes_to_open,
};
use vstd::prelude::*;

verus! {

/// Number of disk inodes held by one block of the inode area.
pub const INODES_PER_BLOCK: u32 = 4;

/// A block of zero bytes.
pub open spec fn zero_block() -> Seq<u8> {
    Seq::new(BLOCK_SZ as nat, |i: int| 0u8)
}

/// Every word of a zero block reads as zero.
proof fn lemma_zero_word(b: Seq<u8>, off: int)
    requires
        b == zero_block(),
        0 <= off,
        off + 8 <= BLOCK_SZ,
    ensures
        u64_at(b, off) == 0,
{
    let z: u64 = 0;
    spec_u64_to_le_bytes_to_open(z);
    assert(z & 0xff == 0 && (z >> 8) & 0xff == 0 && (z >> 16) & 0xff == 0 && (z >> 24) & 0xff == 0
        && (z >> 32) & 0xff == 0 && (z >> 40) & 0xff == 0 && (z >> 48) & 0xff == 0 && (z >> 56)
        & 0xff == 0) by (bit_vector)
        requires
            z == 0,
    ;
    assert(spec_u64_to_le_bytes_open(z) =~= b.subrange(off, off + 8));
    lemma_auto_spec_u64_to_from_le_bytes();
}

/// A bitmap whose blocks are all zero has every bit clear.
pub proof fn lemma_zero_bitmap(bm: Bitmap, disk: Seq<Seq<u8>>)
    requires
        bm.start() + bm.num_blocks() <= disk.len(),
        bm.start() >= 0,
        forall|j: int| bm.start() <= j < bm.start() + bm.num_blocks() ==> #[trigger] disk[j] == zero_block(),
    ensures
        forall|b: int| 0 <= b < bm.bits(disk).len() ==> !#[trigger] bm.bits(disk)[b],
{
    bm.lemma_nonneg();
    assert forall|b: int| 0 <= b < bm.bits(disk).len() implies !#[trigger] bm.bits(disk)[b] by {
        let blk = bm.start() + b / BLOCK_BITS as int;
        let off = ((b % BLOCK_BITS as int) / 64) * 8;
        assert(b / 4096 < bm.num_blocks()) by (nonlinear_arith)
            requires
                0 <= b < bm.num_blocks() * 4096,
        ;
        assert(0 <= off && off + 8 <= BLOCK_SZ) by (nonlinear_arith)
            requires
                off == ((b % 4096) / 64) * 8,
                b >= 0,
        ;
        assert(disk[blk] == zero_block());
        lemma_zero_word(disk[blk], off);
        let i = (b % 64) as u64;
        let w: u64 = 0;
        assert((w >> i) & 1u64 != 1u64) by (bit_vector)
            requires
                w == 0,
        ;
    }
}

/// Number of clear bits of `bits`.
pub open spec fn count_free(bits: Seq<bool>) -> nat
    decreases bits.len(),
{
    if bits.len() == 0 {
        0
    } else {
        count_free(bits.drop_last()) + if bits.last() {
            0nat
        } else {
            1nat
        }
    }
}

/// Setting a clear bit leaves one clear bit fewer.
pub proof fn lemma_count_free_set(bits: Seq<bool>, i: int)
    requires
        0 <= i < bits.len(),
        !bits[i],
    ensures
        count_free(bits.update(i, true)) + 1 == count_free(bits),
    decreases bits.len(),
{
    let u = bits.update(i, true);
    if i < bits.len() - 1 {
        assert(u.drop_last() =~= bits.drop_last().update(i, true));
        lemma_count_free_set(bits.drop_last(), i);
    } else {
        assert(u.drop_last() =~= bits.drop_last());
    }
}

/// Clearing a set bit leaves one clear bit more.
pub proof fn lemma_count_free_clear(bits: Seq<bool>, i: int)
    requires
        0 <= i < bits.len(),
        bits[i],
    ensures
        count_free(bits.update(i, false)) == count_free(bits) + 1,
    decreases bits.len(),
{
    let u = bits.update(i, false);
    if i < bits.len() - 1 {
        assert(u.drop_last() =~= bits.drop_last().update(i, false));
        lemma_count_free_clear(bits.drop_last(), i);
    } else {
        assert(u.drop_last() =~= bits.drop_last());
    }
}

/// Some bit is clear when the count of clear bits is positive.
pub proof fn lemma_count_free_some(bits: Seq<bool>) -> (i: int)
    requires
        count_free(bits) > 0,
    ensures
        0 <= i < bits.len(),
        !bits[i],
    decreases bits.len(),
{
    if !bits.last() {
        (bits.len() - 1) as int
    } else {
        let j = lemma_count_free_some(bits.drop_last());
        j
    }
}

/// The file system: a cache over the device, the two bitmaps and where the
/// inode and data areas start.
///
/// Disk layout: super block (block 0) | inode bitmap | inode area | data bitmap | data area.
pub struct EasyFileSystem<D: BlockDevice> {
    pub cache: BlockCacheManager<D>,
    pub inode_bitmap: Bitmap,
    pub data_bitmap: Bitmap,
    pub inode_area_start_block: u32,
    pub data_area_start_block: u32,
}

impl<D: BlockDevice> View for EasyFileSystem<D> {
    type V = Seq<Seq<u8>>;

    /// The logical disk, as the cache shows it.
    open spec fn view(&self) -> Seq<Seq<u8>> {
        self.cache@
    }
}

/// Position of inode `inode_id`: its block and its byte offset in that block.
pub open spec fn inode_pos(inode_area_start: int, inode_id: int) -> (int, int) {
    (inode_area_start + inode_id / INODES_PER_BLOCK as int, (inode_id % INODES_PER_BLOCK as int) * DISK_INODE_SZ)
}

impl<D: BlockDevice> EasyFileSystem<D> {
    /// First block of the inode area.
    pub open spec fn inode_area_start(&self) -> int {
        self.inode_area_start_block as int
    }

    /// First block of the data area.
    pub open spec fn data_area_start(&self) -> int {
        self.data_area_start_block as int
    }

    /// The areas lie in order on the disk, inside it, and every inode and data
    /// block number the bitmaps can hand out fits in a `u32`.
    pub open spec fn wf(&self) -> bool {
        &&& self.cache.wf()
        &&& self.inode_bitmap.start() == 1
        &&& self.inode_bitmap.fits(self@.len())
        &&& self.data_bitmap.fits(self@.len())
        &&& self.inode_area_start() == 1 + self.inode_bitmap.num_blocks()
        &&& self.inode_area_start() + self.inode_bitmap.num_blocks() * (BLOCK_BITS as int / INODES_PER_BLOCK as int)
            <= self.data_bitmap.start()
        &&& self.data_area_start() == self.data_bitmap.start() + self.data_bitmap.num_blocks()
        &&& self.inode_bitmap.num_blocks() * BLOCK_BITS <= u32::MAX
        &&& self.data_area_start() + self.data_bitmap.num_blocks() * BLOCK_BITS <= u32::MAX
    }

    /// `other` has the same layout as `self`.
    pub open spec fn same_layout(&self, other: &Self) -> bool {
        &&& self.inode_bitmap == other.inode_bitmap
        &&& self.data_bitmap == other.data_bitmap
        &&& self.inode_area_start() == other.inode_area_start()
        &&& self.data_area_start() == other.data_area_start()
    }

    /// What the device itself holds, without the modifications still in the cache.
    pub open spec fn device_blocks(&self) -> Seq<Seq<u8>> {
        self.cache.device_blocks()
    }

    /// The bits of the inode bitmap.
    pub open spec fn inode_bits(&self) -> Seq<bool> {
        self.inode_bitmap.bits(self@)
    }

    /// The bits of the data bitmap.
    pub open spec fn data_bits(&self) -> Seq<bool> {
        self.data_bitmap.bits(self@)
    }

    /// The bits of the data bitmap whose blocks lie on the disk.
    pub open spec fn usable_data_bits(&self) -> Seq<bool> {
        let u = self@.len() - self.data_area_start();
        self.data_bits().subrange(
            0,
            if u < self.data_bits().len() {
                u
            } else {
                self.data_bits().len() as int
            },
        )
    }

    /// Number of free data blocks on the disk.
    pub open spec fn free_data_blocks(&self) -> nat {
        count_free(self.usable_data_bits())
    }

    /// The block and offset of inode `inode_id`.
    pub fn get_disk_inode_pos(&self, inode_id: u32) -> (r: (u32, usize))
        requires
            self.inode_area_start() + inode_id as int / INODES_PER_BLOCK as int <= u32::MAX,
        ensures
            r.0 == inode_pos(self.inode_area_start(), inode_id as int).0,
            r.1 == inode_pos(self.inode_area_start(), inode_id as int).1,
    {
        let inode_size = DISK_INODE_SZ;
        let inodes_per_block = (BLOCK_SZ / inode_size) as u32;
        let block_id = self.inode_area_start_block + inode_id / inodes_per_block;
        (block_id, (inode_id % inodes_per_block) as usize * inode_size)
    }

    /// The disk block of data block `data_block_id` of the data area.
    pub fn get_data_block_id(&self, data_block_id: u32) -> (r: u32)
        requires
            self.data_area_start() + data_block_id <= u32::MAX,
        ensures
            r == self.data_area_start() + data_block_id,
    {
        self.data_area_start_block + data_block_id
    }

    /// Allocates the lowest free inode and returns its number; some inode must be free.
    ///
    /// Only the inode bitmap block holding its bit changes.
    pub fn alloc_inode(&mut self) -> (r: u32)
        requires
            old(self).wf(),
            old(self).inode_bits().contains(false),
        ensures
            final(self).wf(),
            final(self).same_layout(old(self)),
            final(self)@.len() == old(self)@.len(),
            r < old(self).inode_bits().len(),
            !old(self).inode_bits()[r as int],
            forall|c: int| 0 <= c < r ==> #[trigger] old(self).inode_bits()[c],
            final(self).inode_bits() == old(self).inode_bits().update(r as int, true),
            forall|k: int|
                0 <= k < old(self)@.len() && k != 1 + r as int / BLOCK_BITS as int ==> #[trigger] final(self)@[k]
                    == old(self)@[k],
    {
        let r = self.inode_bitmap.alloc_bit(&mut self.cache);
        match r {
            Some(b) => {
                proof {
                    self.inode_bitmap.lemma_nonneg();
                }
                assert(old(self).inode_bits().len() == self.inode_bitmap.num_blocks() * BLOCK_BITS);
                b as u32
            },
            None => {
                proof {
                    let c = choose|c: int| 0 <= c < old(self).inode_bits().len() && old(self).inode_bits()[c] == false;
                    assert(old(self).inode_bits()[c]);
                }
                0
            },
        }
    }

    /// Allocates the lowest free data block and returns its disk block number;
    /// some data block must be free.
    ///
    /// Only the data bitmap block holding its bit changes.
    pub fn alloc_data(&mut self) -> (r: u32)
        requires
            old(self).wf(),
            old(self).data_bits().contains(false),
        ensures
            final(self).wf(),
            final(self).same_layout(old(self)),
            final(self)@.len() == old(self)@.len(),
            old(self).data_area_start() <= r,
            r - old(self).data_area_start() < old(self).data_bits().len(),
            !old(self).data_bits()[r - old(self).data_area_start()],
            forall|c: int| 0 <= c < r - old(self).data_area_start() ==> #[trigger] old(self).data_bits()[c],
            final(self).data_bits() == old(self).data_bits().update(r - old(self).data_area_start(), true),
            forall|k: int|
                0 <= k < old(self)@.len() && k != old(self).data_bitmap.start() + (r
                    - old(self).data_area_start()) / BLOCK_BITS as int ==> #[trigger] final(self)@[k]
                    == old(self)@[k],
            old(self).free_data_blocks() > 0 ==> r < old(self)@.len() && final(self).free_data_blocks() + 1
                == old(self).free_data_blocks(),
    {
        let r = self.data_bitmap.alloc_bit(&mut self.cache);
        match r {
            Some(b) => {
                proof {
                    self.data_bitmap.lemma_nonneg();
                    if old(self).free_data_blocks() > 0 {
                        let t = old(self).usable_data_bits();
                        let i = lemma_count_free_some(t);
                        assert(old(self).data_bits()[i] == t[i]);
                        assert(b <= i);
                        assert(self.usable_data_bits() =~= t.update(b as int, true));
                        lemma_count_free_set(t, b as int);
                    }
                }
                assert(old(self).data_bits().len() == self.data_bitmap.num_blocks() * BLOCK_BITS);
                b as u32 + self.data_area_start_block
            },
            None => {
                proof {
                    let c = choose|c: int| 0 <= c < old(self).data_bits().len() && old(self).data_bits()[c] == false;
                    assert(old(self).data_bits()[c]);
                }
                self.data_area_start_block
            },
        }
    }

    /// Zeroes data block `block_id` (a disk block number) and frees it in the data bitmap.
    pub fn dealloc_data(&mut self, block_id: u32)
        requires
            old(self).wf(),
            old(self).data_area_start() <= block_id < old(self)@.len(),
            block_id - old(self).data_area_start() < old(self).data_bits().len(),
            old(self).data_bits()[block_id - old(self).data_area_start()],
        ensures
            final(self).wf(),
            final(self).same_layout(old(self)),
            final(self)@.len() == old(self)@.len(),
            final(self)@[block_id as int] == zero_block(),
            final(self).data_bits() == old(self).data_bits().update(block_id - old(self).data_area_start(), false),
            forall|k: int|
                0 <= k < old(self)@.len() && k != block_id && k != old(self).data_bitmap.start() + (
                block_id - old(self).data_area_start()) / BLOCK_BITS as int ==> #[trigger] final(self)@[k]
                    == old(self)@[k],
            final(self).free_data_blocks() == old(self).free_data_blocks() + 1,
    {
        let zeros = vec![0u8; BLOCK_SZ];
        proof {
            self.cache.lemma_wf();
        }
        self.cache.modify(block_id as usize, 0, zeros.as_slice());
        let ghost mid = self@;
        proof {
            assert(mid[block_id as int] =~= zero_block());
            self.data_bitmap.lemma_nonneg();
            let n = self.data_bitmap.num_blocks();
            let st = self.data_bitmap.start();
            assert(old(self).data_bits().len() == n * 4096);
            assert(self.data_bits() =~= old(self).data_bits()) by {
                assert forall|b: int| 0 <= b < self.data_bits().len() implies self.data_bits()[b]
                    == old(self).data_bits()[b] by {
                    assert(b / 4096 < n) by (nonlinear_arith)
                        requires
                            0 <= b < n * 4096,
                    ;
                    assert(st + b / 4096 != block_id);
                }
            }
        }
        self.data_bitmap.dealloc(&mut self.cache, (block_id - self.data_area_start_block) as usize);
        proof {
            let t = old(self).usable_data_bits();
            assert(self.usable_data_bits() =~= t.update(block_id - self.data_area_start(), false));
            lemma_count_free_clear(t, block_id - self.data_area_start());
        }
    }
}


/// Number of data bitmap blocks `create` gives a file system whose data area
/// and data bitmap share `data_total_blocks` blocks: one bitmap block covers
/// itself and 4096 data blocks.
pub open spec fn data_bitmap_blocks_for(data_total_blocks: int) -> int {
    (data_total_blocks + 4096) / 4097
}

/// The inode of an empty directory.
pub open spec fn empty_dir() -> InodeModel {
    InodeModel {
        size: 0,
        direct: Seq::new(INODE_DIRECT_COUNT as nat, |i: int| 0u32),
        indirect1: 0,
        indirect2: 0,
        is_dir: true,
    }
}

impl<D: BlockDevice> EasyFileSystem<D> {
    /// Formats the first `total_blocks` blocks of `block_device` as a file
    /// system with `inode_bitmap_blocks` blocks of inode bitmap, and writes it
    /// to the device.
    ///
    /// The inode area gets room for every inode the bitmap can number; the
    /// remaining blocks are split between the data bitmap and the data area.
    /// Every formatted block is zeroed, the super block is written, and inode 0
    /// is allocated as the root directory, empty.
    #[verifier::rlimit(50)]
    pub fn create(block_device: D, total_blocks: u32, inode_bitmap_blocks: u32) -> (r: Self)
        requires
            blocks_well_sized(block_device.blocks()),
            total_blocks <= block_device.blocks().len(),
            1 <= inode_bitmap_blocks,
            1 + 1025 * inode_bitmap_blocks <= total_blocks,
            total_blocks + 4096 <= u32::MAX,
            inode_bitmap_blocks * BLOCK_BITS <= u32::MAX,
            inode_bitmap_blocks * BLOCK_BITS * DISK_INODE_SZ + BLOCK_SZ - 1 <= usize::MAX,
        ensures
            ({
                let ibb = inode_bitmap_blocks as int;
                let iab = 1024 * ibb;
                let dbb = data_bitmap_blocks_for(total_blocks - 1 - ibb - iab);
                let dab = total_blocks - 1 - ibb - iab - dbb;
                &&& r.wf()
                &&& r.device_blocks() == r@
                &&& r@.len() == block_device.blocks().len()
                &&& r.inode_bitmap.start() == 1
                &&& r.inode_bitmap.num_blocks() == ibb
                &&& r.inode_area_start() == 1 + ibb
                &&& r.data_bitmap.start() == 1 + ibb + iab
                &&& r.data_bitmap.num_blocks() == dbb
                &&& r.data_area_start() == 1 + ibb + iab + dbb
                &&& u32_at(r@[0], 0) == EFS_MAGIC
                &&& u32_at(r@[0], 4) == total_blocks
                &&& u32_at(r@[0], 8) == ibb
                &&& u32_at(r@[0], 12) == iab
                &&& u32_at(r@[0], 16) == dbb
                &&& u32_at(r@[0], 20) == dab
                &&& r.inode_bits() == Seq::new((ibb * BLOCK_BITS) as nat, |b: int| b == 0)
                &&& forall|b: int| 0 <= b < r.data_bits().len() ==> !#[trigger] r.data_bits()[b]
                &&& forall|k: int| SUPER_BLOCK_SZ <= k < BLOCK_SZ ==> #[trigger] r@[0][k] == 0
                &&& inode_model_of(r@[1 + ibb].subrange(0, DISK_INODE_SZ as int)) == empty_dir()
                &&& forall|k: int| DISK_INODE_SZ <= k < BLOCK_SZ ==> #[trigger] r@[1 + ibb][k] == 0
                &&& forall|j: int|
                    0 <= j < total_blocks && j != 0 && j != 1 && j != 1 + ibb ==> #[trigger] r@[j]
                        == zero_block()
                &&& forall|j: int|
                    total_blocks <= j < r@.len() ==> #[trigger] r@[j] == block_device.blocks()[j]
            }),
    {
        let ghost dev = block_device.blocks();
        let inode_bitmap = Bitmap::new(1, inode_bitmap_blocks as usize);
        proof {
            inode_bitmap.lemma_nonneg();
        }
        let inode_num = inode_bitmap.maximum();
        proof {
            let ibb = inode_bitmap_blocks as int;
            assert(inode_num * 128 + 511 <= usize::MAX);
            assert((inode_num * 128 + 511) / 512 == 1024 * ibb) by (nonlinear_arith)
                requires
                    inode_num == ibb * 4096,
            ;
        }
        let inode_area_blocks = ((inode_num * DISK_INODE_SZ + BLOCK_SZ - 1) / BLOCK_SZ) as u32;
        assert(inode_area_blocks == 1024 * inode_bitmap_blocks);
        let inode_total_blocks = inode_bitmap_blocks + inode_area_blocks;
        let data_total_blocks = total_blocks - 1 - inode_total_blocks;
        let data_bitmap_blocks = (data_total_blocks + 4096) / 4097;
        let data_area_blocks = data_total_blocks - data_bitmap_blocks;
        let data_bitmap = Bitmap::new(
            (1 + inode_bitmap_blocks + inode_area_blocks) as usize,
            data_bitmap_blocks as usize,
        );
        proof {
            data_bitmap.lemma_nonneg();
            assert(4097 * data_bitmap_blocks <= data_total_blocks + 4096) by (nonlinear_arith)
                requires
                    data_bitmap_blocks == (data_total_blocks + 4096) / 4097,
            ;
            assert(data_bitmap_blocks <= data_total_blocks) by (nonlinear_arith)
                requires
                    data_bitmap_blocks == (data_total_blocks + 4096) / 4097,
            ;
        }
        let mut efs = Self {
            cache: BlockCacheManager::new(block_device),
            inode_bitmap,
            data_bitmap,
            inode_area_start_block: 1 + inode_bitmap_blocks,
            data_area_start_block: 1 + inode_total_blocks + data_bitmap_blocks,
        };
        let zeros = vec![0u8; BLOCK_SZ];
        assert(zeros@ =~= zero_block());
        let mut i: u32 = 0;
        while i < total_blocks
            invariant
                efs.cache.wf(),
                efs.inode_bitmap == inode_bitmap,
                efs.data_bitmap == data_bitmap,
                efs.inode_area_start_block == 1 + inode_bitmap_blocks,
                efs.data_area_start_block == 1 + inode_total_blocks + data_bitmap_blocks,
                efs@.len() == dev.len(),
                total_blocks <= dev.len(),
                i <= total_blocks,
                zeros@ == zero_block(),
                forall|j: int| 0 <= j < i ==> #[trigger] efs@[j] == zero_block(),
                forall|j: int| i <= j < efs@.len() ==> #[trigger] efs@[j] == dev[j],
            decreases total_blocks - i,
        {
            proof {
                efs.cache.lemma_wf();
            }
            efs.cache.modify(i as usize, 0, zeros.as_slice());
            proof {
                assert(efs@[i as int] =~= zero_block());
            }
            i = i + 1;
        }
        let ghost zeroed = efs@;
        proof {
            efs.cache.lemma_wf();
        }
        let head = efs.cache.read(0, 0, SUPER_BLOCK_SZ);
        let mut super_block = SuperBlock::decode(head.as_slice());
        super_block.initialize(
            total_blocks,
            inode_bitmap_blocks,
            inode_area_blocks,
            data_bitmap_blocks,
            data_area_blocks,
        );
        let sb_bytes = super_block.encode();
        efs.cache.modify(0, 0, sb_bytes.as_slice());
        proof {
            let b0 = efs@[0];
            assert(b0.subrange(0, 24) =~= sb_bytes@);
            assert forall|k: int| 0 <= k <= 20 implies u32_at(b0, k) == u32_at(sb_bytes@, k) by {
                assert(b0.subrange(k, k + 4) =~= sb_bytes@.subrange(k, k + 4));
            }
            let ibb = inode_bitmap_blocks as int;
            let dbb = data_bitmap_blocks as int;
            assert(ibb * 4096 <= usize::MAX) by (nonlinear_arith)
                requires
                    ibb * 4096 * 128 + 511 <= usize::MAX,
                    ibb >= 0,
            ;
            assert(dbb * 4096 <= usize::MAX) by (nonlinear_arith)
                requires
                    4097 * dbb <= data_total_blocks + 4096,
                    data_total_blocks <= u32::MAX,
                    u32::MAX <= usize::MAX,
            ;
            assert(dbb * 4096 <= 4096 * 4097 * dbb) by (nonlinear_arith)
                requires
                    dbb >= 0,
            ;
            assert(1 + ibb + 1024 * ibb + dbb + dbb * 4096 <= u32::MAX) by (nonlinear_arith)
                requires
                    4097 * dbb <= data_total_blocks + 4096,
                    data_total_blocks == total_blocks - 1 - ibb - 1024 * ibb,
                    total_blocks + 4096 <= u32::MAX,
            ;
            assert(BLOCK_BITS == 4096);
            assert(efs@.len() == dev.len());
            assert(efs.inode_bitmap.start() + efs.inode_bitmap.num_blocks() <= efs@.len());
            assert(efs.inode_bitmap.num_blocks() * BLOCK_BITS <= usize::MAX);
            assert(efs.data_bitmap.start() + efs.data_bitmap.num_blocks() <= efs@.len());
            assert(efs.data_bitmap.num_blocks() * BLOCK_BITS <= usize::MAX);
            assert(efs.inode_bitmap.fits(efs@.len()));
            assert(efs.cache.wf());
            assert(efs.inode_area_start() == 1 + efs.inode_bitmap.num_blocks());
            assert(BLOCK_BITS as int / INODES_PER_BLOCK as int == 1024);
            assert(efs.data_area_start() == efs.data_bitmap.start() + efs.data_bitmap.num_blocks());
            assert(efs.inode_bitmap.num_blocks() * BLOCK_BITS <= u32::MAX);
            assert(efs.data_area_start() + efs.data_bitmap.num_blocks() * BLOCK_BITS <= u32::MAX);
            assert(efs.data_bitmap.fits(efs@.len()));
            assert(efs.wf());
            assert forall|j: int| 1 <= j < 1 + ibb implies #[trigger] efs@[j] == zero_block() by {
                assert(efs@[j] == zeroed[j]);
            }
            lemma_zero_bitmap(efs.inode_bitmap, efs@);
            assert(efs.inode_bits()[0] == false);
            assert(efs.inode_bits().contains(false));
        }
        assert forall|k: int| SUPER_BLOCK_SZ <= k < BLOCK_SZ implies #[trigger] efs@[0][k] == 0 by {
            assert(efs@[0][k] == zeroed[0][k]);
        }
        let ghost before_alloc = efs@;
        let root = efs.alloc_inode();
        assert(!efs.inode_bitmap.bits(before_alloc)[0]);
        assert(root == 0);
        let ghost after_alloc = efs@;
        let (root_block, root_offset) = efs.get_disk_inode_pos(0);
        proof {
            efs.cache.lemma_wf();
            assert(root_block == 1 + inode_bitmap_blocks);
            assert(root_offset == 0);
        }
        let raw = efs.cache.read(root_block as usize, root_offset, DISK_INODE_SZ);
        let mut root_inode = DiskInode::decode(raw.as_slice());
        root_inode.initialize(DiskInodeType::Directory);
        let root_bytes = root_inode.encode();
        proof {
            let m = root_inode@;
            assert(m.direct =~= empty_dir().direct);
            assert(m == empty_dir());
            lemma_inode_roundtrip(m);
        }
        proof {
            assert(after_alloc[root_block as int] == zero_block());
            assert(after_alloc[0] == before_alloc[0]);
        }
        efs.cache.modify(root_block as usize, root_offset, root_bytes.as_slice());
        proof {
            assert(efs@[root_block as int].subrange(0, 128) =~= root_bytes@);
            assert forall|k: int| DISK_INODE_SZ <= k < BLOCK_SZ implies #[trigger] efs@[root_block as int][k] == 0 by {
                assert(efs@[root_block as int][k] == after_alloc[root_block as int][k]);
            }
        }
        block_cache_sync_all(&mut efs.cache);
        proof {
            let ibb = inode_bitmap_blocks as int;
            lemma_zero_bitmap(efs.data_bitmap, zeroed);
            assert forall|b: int| 0 <= b < efs.data_bits().len() implies !#[trigger] efs.data_bits()[b] by {
                assert(b / 4096 < data_bitmap_blocks) by (nonlinear_arith)
                    requires
                        0 <= b < data_bitmap_blocks * 4096,
                ;
                assert(efs@[1 + ibb + 1024 * ibb + b / 4096] == zeroed[1 + ibb + 1024 * ibb + b / 4096]);
                assert(efs.data_bits()[b] == efs.data_bitmap.bits(zeroed)[b]);
            }
            assert(efs.inode_bits() =~= Seq::new((ibb * BLOCK_BITS) as nat, |b: int| b == 0)) by {
                assert forall|b: int| 0 <= b < efs.inode_bits().len() implies efs.inode_bits()[b] == (b == 0) by {
                    assert(b / 4096 < ibb) by (nonlinear_arith)
                        requires
                            0 <= b < ibb * 4096,
                    ;
                    assert(1 + b / 4096 != 1 + ibb);
                    assert(efs@[1 + b / 4096] == after_alloc[1 + b / 4096]);
                    assert(efs.inode_bits()[b] == efs.inode_bitmap.bits(after_alloc)[b]);
                    if b != 0 {
                        assert(efs.inode_bitmap.bits(before_alloc)[b] == false);
                    }
                }
            }
        }
        efs
    }
}

impl<D: BlockDevice> EasyFileSystem<D> {
    /// Opens the file system already on `block_device`, laid out as its super
    /// block says; the super block's magic number must be right.
    pub fn open(block_device: D) -> (r: Self)
        requires
            blocks_well_sized(block_device.blocks()),
            block_device.blocks().len() >= 1,
            u32_at(block_device.blocks()[0], 0) == EFS_MAGIC,
            1 + u32_at(block_device.blocks()[0], 8) + u32_at(block_device.blocks()[0], 12) + u32_at(
                block_device.blocks()[0],
                16,
            ) <= u32::MAX,
        ensures
            ({
                let b0 = block_device.blocks()[0];
                let ibb = u32_at(b0, 8) as int;
                let iab = u32_at(b0, 12) as int;
                let dbb = u32_at(b0, 16) as int;
                &&& r.cache.wf()
                &&& r@ == block_device.blocks()
                &&& r.inode_bitmap.start() == 1
                &&& r.inode_bitmap.num_blocks() == ibb
                &&& r.inode_area_start() == 1 + ibb
                &&& r.data_bitmap.start() == 1 + ibb + iab
                &&& r.data_bitmap.num_blocks() == dbb
                &&& r.data_area_start() == 1 + ibb + iab + dbb
            }),
    {
        let mut cache = BlockCacheManager::new(block_device);
        proof {
            cache.lemma_wf();
        }
        let head = cache.read(0, 0, SUPER_BLOCK_SZ);
        let super_block = SuperBlock::decode(head.as_slice());
        proof {
            let b0 = cache@[0];
            assert forall|k: int| 0 <= k <= 20 implies u32_at(head@, k) == u32_at(b0, k) by {
                assert(head@.subrange(k, k + 4) =~= b0.subrange(k, k + 4));
            }
        }
        let inode_total_blocks = super_block.inode_bitmap_blocks + super_block.inode_area_blocks;
        Self {
            cache,
            inode_bitmap: Bitmap::new(1, super_block.inode_bitmap_blocks as usize),
            data_bitmap: Bitmap::new(
                (1 + inode_total_blocks) as usize,
                super_block.data_bitmap_blocks as usize,
            ),
            inode_area_start_block: 1 + super_block.inode_bitmap_blocks,
            data_area_start_block: 1 + inode_total_blocks + super_block.data_bitmap_blocks,
        }
    }
}
/// A freed data block is the next one handed out when every data block before
/// it is in use: freeing block `b` of `fs0` gives `fs1`, and allocating from
/// `fs1` gives `r`.
pub proof fn law_freed_block_reused<D: BlockDevice>(fs0: &EasyFileSystem<D>, fs1: &EasyFileSystem<D>, b: int, r: int)
    requires
        fs1.same_layout(fs0),
        fs0.data_area_start() <= b,
        b - fs0.data_area_start() < fs0.data_bits().len(),
        fs0.data_bits()[b - fs0.data_area_start()],
        forall|c: int| 0 <= c < b - fs0.data_area_start() ==> #[trigger] fs0.data_bits()[c],
        fs1.data_bits() == fs0.data_bits().update(b - fs0.data_area_start(), false),
        fs1.data_area_start() <= r,
        r - fs1.data_area_start() < fs1.data_bits().len(),
        !fs1.data_bits()[r - fs1.data_area_start()],
        forall|c: int| 0 <= c < r - fs1.data_area_start() ==> #[trigger] fs1.data_bits()[c],
    ensures
        r == b,
{
    let st = fs0.data_area_start();
    if r < b {
        assert(fs0.data_bits()[r - st]);
        assert(fs1.data_bits()[r - st]);
    } else if r > b {
        assert(fs1.data_bits()[b - st]);
    }
}

} // verus!
