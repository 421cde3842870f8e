//! On-disk structures: the super block, disk inodes and directory entries.
use super::block_cache::{lemma_u32_splice, splice, u32_at, u32_bytes, BlockCacheManager};
use super::block_dev::{BlockDevice, BLOCK_SZ};
use vstd::arithmetic::div_mod::lemma_fundamental_div_mod_converse;
use vstd::bytes::{
    lemma_auto_spec_u32_to_from_le_bytes, spec_u32_from_le_bytes, u32_from_le_bytes, u32_to_le_bytes,
};
use vstd::prelude::*;
use vstd::string::StringSliceAdditionalSpecFns;
use vstd::utf8::valid_utf8;

verus! {

/// Magic number of a valid super block.
pub const EFS_MAGIC: u32 = 0x3b800001;

/// Number of direct block pointers of an inode.
pub const INODE_DIRECT_COUNT: usize = 28;

/// Number of block pointers held by one index block.
pub const INODE_INDIRECT1_COUNT: usize = 128;

/// Number of blocks reachable through the doubly indirect block.
pub const INODE_INDIRECT2_COUNT: usize = 16384;

/// Data blocks `[0, DIRECT_BOUND)` are reached through the direct pointers.
pub const DIRECT_BOUND: usize = 28;

/// Data blocks `[DIRECT_BOUND, INDIRECT1_BOUND)` are reached through the indirect block.
pub const INDIRECT1_BOUND: usize = 156;

/// Data blocks `[INDIRECT1_BOUND, INDIRECT2_BOUND)` are reached through the doubly indirect block.
pub const INDIRECT2_BOUND: usize = 16540;

/// Longest file name, in bytes.
pub const NAME_LENGTH_LIMIT: usize = 27;

/// Size of a directory entry on disk.
pub const DIRENT_SZ: usize = 32;

/// Size of a disk inode on disk.
pub const DISK_INODE_SZ: usize = 128;

/// The super block, stored at the start of block 0.
pub struct SuperBlock {
    pub magic: u32,
    pub total_blocks: u32,
    pub inode_bitmap_blocks: u32,
    pub inode_area_blocks: u32,
    pub data_bitmap_blocks: u32,
    pub data_area_blocks: u32,
}

/// Size of the super block on disk.
pub const SUPER_BLOCK_SZ: usize = 24;

impl SuperBlock {
    /// The magic number field.
    pub open spec fn spec_magic(&self) -> u32 {
        self.magic
    }

    /// Fills in the super block of a freshly formatted file system.
    pub fn initialize(
        &mut self,
        total_blocks: u32,
        inode_bitmap_blocks: u32,
        inode_area_blocks: u32,
        data_bitmap_blocks: u32,
        data_area_blocks: u32,
    )
        ensures
            final(self).spec_magic() == EFS_MAGIC,
            final(self).total_blocks == total_blocks,
            final(self).inode_bitmap_blocks == inode_bitmap_blocks,
            final(self).inode_area_blocks == inode_area_blocks,
            final(self).data_bitmap_blocks == data_bitmap_blocks,
            final(self).data_area_blocks == data_area_blocks,
    {
        *self =
        Self {
            magic: EFS_MAGIC,
            total_blocks,
            inode_bitmap_blocks,
            inode_area_blocks,
            data_bitmap_blocks,
            data_area_blocks,
        };
    }

    /// Whether the magic number is right.
    pub fn is_valid(&self) -> (r: bool)
        ensures
            r == (self.spec_magic() == EFS_MAGIC),
    {
        self.magic == EFS_MAGIC
    }

    /// The super block held by the first `SUPER_BLOCK_SZ` bytes of `bytes`.
    pub fn decode(bytes: &[u8]) -> (r: Self)
        requires
            bytes@.len() >= SUPER_BLOCK_SZ,
        ensures
            r.spec_magic() == u32_at(bytes@, 0),
            r.total_blocks == u32_at(bytes@, 4),
            r.inode_bitmap_blocks == u32_at(bytes@, 8),
            r.inode_area_blocks == u32_at(bytes@, 12),
            r.data_bitmap_blocks == u32_at(bytes@, 16),
            r.data_area_blocks == u32_at(bytes@, 20),
    {
        SuperBlock {
            magic: u32_from_le_bytes(&bytes[0..4]),
            total_blocks: u32_from_le_bytes(&bytes[4..8]),
            inode_bitmap_blocks: u32_from_le_bytes(&bytes[8..12]),
            inode_area_blocks: u32_from_le_bytes(&bytes[12..16]),
            data_bitmap_blocks: u32_from_le_bytes(&bytes[16..20]),
            data_area_blocks: u32_from_le_bytes(&bytes[20..24]),
        }
    }

    /// The on-disk bytes of the super block.
    pub fn encode(&self) -> (r: Vec<u8>)
        ensures
            r@.len() == SUPER_BLOCK_SZ,
            u32_at(r@, 0) == self.spec_magic(),
            u32_at(r@, 4) == self.total_blocks,
            u32_at(r@, 8) == self.inode_bitmap_blocks,
            u32_at(r@, 12) == self.inode_area_blocks,
            u32_at(r@, 16) == self.data_bitmap_blocks,
            u32_at(r@, 20) == self.data_area_blocks,
    {
        let mut r: Vec<u8> = Vec::new();
        let mut a = u32_to_le_bytes(self.magic);
        r.append(&mut a);
        let mut a = u32_to_le_bytes(self.total_blocks);
        r.append(&mut a);
        let mut a = u32_to_le_bytes(self.inode_bitmap_blocks);
        r.append(&mut a);
        let mut a = u32_to_le_bytes(self.inode_area_blocks);
        r.append(&mut a);
        let mut a = u32_to_le_bytes(self.data_bitmap_blocks);
        r.append(&mut a);
        let mut a = u32_to_le_bytes(self.data_area_blocks);
        r.append(&mut a);
        proof {
            lemma_auto_spec_u32_to_from_le_bytes();
            assert(r@.subrange(0, 4) =~= u32_bytes(self.magic));
            assert(r@.subrange(4, 8) =~= u32_bytes(self.total_blocks));
            assert(r@.subrange(8, 12) =~= u32_bytes(self.inode_bitmap_blocks));
            assert(r@.subrange(12, 16) =~= u32_bytes(self.inode_area_blocks));
            assert(r@.subrange(16, 20) =~= u32_bytes(self.data_bitmap_blocks));
            assert(r@.subrange(20, 24) =~= u32_bytes(self.data_area_blocks));
        }
        r
    }
}

/// Whether an inode is a regular file or a directory.
#[derive(PartialEq, Eq, Structural, Clone, Copy)]
pub enum DiskInodeType {
    File,
    Directory,
}

/// What a disk inode holds, as mathematical values.
pub struct InodeModel {
    pub size: u32,
    pub direct: Seq<u32>,
    pub indirect1: u32,
    pub indirect2: u32,
    pub is_dir: bool,
}

/// A file or directory on disk: its size in bytes and where its data blocks are.
///
/// Data block `i` is `direct[i]` for `i < DIRECT_BOUND`, entry `i - DIRECT_BOUND`
/// of the indirect block for `i < INDIRECT1_BOUND`, and otherwise entry
/// `(i - INDIRECT1_BOUND) % 128` of the index block found at entry
/// `(i - INDIRECT1_BOUND) / 128` of the doubly indirect block.
pub struct DiskInode {
    pub size: u32,
    pub direct: [u32; INODE_DIRECT_COUNT],
    pub indirect1: u32,
    pub indirect2: u32,
    pub type_: DiskInodeType,
}

impl View for DiskInode {
    type V = InodeModel;

    open spec fn view(&self) -> InodeModel {
        InodeModel {
            size: self.size,
            direct: self.direct@,
            indirect1: self.indirect1,
            indirect2: self.indirect2,
            is_dir: self.type_ == DiskInodeType::Directory,
        }
    }
}

/// The inode held by the first `DISK_INODE_SZ` bytes of `b`.
pub open spec fn inode_model_of(b: Seq<u8>) -> InodeModel {
    InodeModel {
        size: u32_at(b, 0),
        direct: Seq::new(INODE_DIRECT_COUNT as nat, |i: int| u32_at(b, 4 + 4 * i)),
        indirect1: u32_at(b, 116),
        indirect2: u32_at(b, 120),
        is_dir: b[124] == 1,
    }
}

/// The bytes of the direct pointers: pointer `k / 4`, byte `k % 4`.
pub open spec fn direct_bytes(direct: Seq<u32>) -> Seq<u8> {
    Seq::new(4 * INODE_DIRECT_COUNT as nat, |k: int| u32_bytes(direct[k / 4])[k % 4])
}

/// The on-disk bytes of an inode.
pub open spec fn inode_bytes(m: InodeModel) -> Seq<u8> {
    u32_bytes(m.size) + direct_bytes(m.direct) + u32_bytes(m.indirect1) + u32_bytes(m.indirect2) + seq![
        if m.is_dir {
            1u8
        } else {
            0u8
        },
        0u8,
        0u8,
        0u8,
    ]
}

proof fn lemma_div4(k: int, i: int)
    requires
        4 * i <= k < 4 * i + 4,
    ensures
        k / 4 == i,
        k % 4 == k - 4 * i,
{
    lemma_fundamental_div_mod_converse(k, 4, i, k - 4 * i);
}

/// Reading back the bytes of an inode gives the inode.
pub proof fn lemma_inode_roundtrip(m: InodeModel)
    requires
        m.direct.len() == INODE_DIRECT_COUNT,
    ensures
        inode_bytes(m).len() == DISK_INODE_SZ,
        inode_model_of(inode_bytes(m)) == m,
{
    lemma_auto_spec_u32_to_from_le_bytes();
    let b = inode_bytes(m);
    assert(b.subrange(0, 4) =~= u32_bytes(m.size));
    assert(b.subrange(116, 120) =~= u32_bytes(m.indirect1));
    assert(b.subrange(120, 124) =~= u32_bytes(m.indirect2));
    assert forall|i: int| 0 <= i < INODE_DIRECT_COUNT implies #[trigger] u32_at(b, 4 + 4 * i)
        == m.direct[i] by {
        assert forall|k: int| 0 <= k < 4 implies b.subrange(4 + 4 * i, 8 + 4 * i)[k] == u32_bytes(
            m.direct[i],
        )[k] by {
            lemma_div4(4 * i + k, i);
        }
        assert(b.subrange(4 + 4 * i, 8 + 4 * i) =~= u32_bytes(m.direct[i]));
    }
    let got = inode_model_of(b);
    assert(got.direct =~= m.direct);
    assert(got.is_dir == m.is_dir);
}

impl DiskInode {
    /// Reads an inode from the first `DISK_INODE_SZ` bytes of `bytes`.
    pub fn decode(bytes: &[u8]) -> (r: Self)
        requires
            bytes@.len() >= DISK_INODE_SZ,
        ensures
            r@ == inode_model_of(bytes@),
    {
        let size = u32_from_le_bytes(&bytes[0..4]);
        let mut direct: [u32; INODE_DIRECT_COUNT] = [0u32; INODE_DIRECT_COUNT];
        let mut i: usize = 0;
        while i < INODE_DIRECT_COUNT
            invariant
                bytes@.len() >= DISK_INODE_SZ,
                i <= INODE_DIRECT_COUNT,
                direct@.len() == INODE_DIRECT_COUNT,
                forall|k: int| 0 <= k < i ==> #[trigger] direct@[k] == u32_at(bytes@, 4 + 4 * k),
            decreases INODE_DIRECT_COUNT - i,
        {
            let v = u32_from_le_bytes(&bytes[4 + 4 * i..8 + 4 * i]);
            direct[i] = v;
            i = i + 1;
        }
        let indirect1 = u32_from_le_bytes(&bytes[116..120]);
        let indirect2 = u32_from_le_bytes(&bytes[120..124]);
        let type_ = if bytes[124] == 1 {
            DiskInodeType::Directory
        } else {
            DiskInodeType::File
        };
        let r = DiskInode { size, direct, indirect1, indirect2, type_ };
        assert(r@.direct =~= inode_model_of(bytes@).direct);
        r
    }

    /// The on-disk bytes of the inode.
    pub fn encode(&self) -> (r: Vec<u8>)
        ensures
            r@ == inode_bytes(self@),
    {
        let mut r: Vec<u8> = u32_to_le_bytes(self.size);
        let mut i: usize = 0;
        while i < INODE_DIRECT_COUNT
            invariant
                i <= INODE_DIRECT_COUNT,
                r@ == u32_bytes(self.size) + direct_bytes(self.direct@).subrange(0, 4 * i),
            decreases INODE_DIRECT_COUNT - i,
        {
            let mut a = u32_to_le_bytes(self.direct[i]);
            let ghost prev = r@;
            r.append(&mut a);
            proof {
                lemma_auto_spec_u32_to_from_le_bytes();
                let d = direct_bytes(self.direct@);
                assert forall|k: int| 4 * i <= k < 4 * i + 4 implies d[k] == u32_bytes(
                    self.direct@[i as int],
                )[k - 4 * i] by {
                    lemma_div4(k, i as int);
                }
                assert(d.subrange(0, 4 * (i + 1)) =~= d.subrange(0, 4 * i) + u32_bytes(
                    self.direct@[i as int],
                ));
            }
            i = i + 1;
        }
        let mut a = u32_to_le_bytes(self.indirect1);
        r.append(&mut a);
        let mut a = u32_to_le_bytes(self.indirect2);
        r.append(&mut a);
        let t: u8 = match self.type_ {
            DiskInodeType::Directory => 1,
            DiskInodeType::File => 0,
        };
        r.push(t);
        r.push(0);
        r.push(0);
        r.push(0);
        proof {
            assert(direct_bytes(self.direct@).subrange(0, 4 * INODE_DIRECT_COUNT) =~= direct_bytes(
                self.direct@,
            ));
            assert(r@ =~= inode_bytes(self@));
        }
        r
    }
}

/// Number of data blocks of a file of `size` bytes.
pub open spec fn data_blocks_of(size: u32) -> nat {
    ((size as int + BLOCK_SZ - 1) / BLOCK_SZ as int) as nat
}

/// Number of blocks, data and index blocks together, that hold `d` data blocks.
pub open spec fn total_blocks_of(d: nat) -> nat {
    d + (if d > DIRECT_BOUND {
        1nat
    } else {
        0nat
    }) + (if d > INDIRECT1_BOUND {
        (1 + (d - INDIRECT1_BOUND + INODE_INDIRECT1_COUNT - 1) / INODE_INDIRECT1_COUNT as int) as nat
    } else {
        0nat
    })
}

/// Entry `i` of the index block `blk`.
pub open spec fn entry(disk: Seq<Seq<u8>>, blk: u32, i: int) -> u32 {
    u32_at(disk[blk as int], 4 * i)
}

/// The index block that holds data blocks `INDIRECT1_BOUND + 128 * a ..`.
pub open spec fn sub_index(m: InodeModel, disk: Seq<Seq<u8>>, a: int) -> u32 {
    entry(disk, m.indirect2, a)
}

/// The disk block that holds data block `i` of the inode.
pub open spec fn block_id_of(m: InodeModel, disk: Seq<Seq<u8>>, i: int) -> u32 {
    if i < DIRECT_BOUND {
        m.direct[i]
    } else if i < INDIRECT1_BOUND {
        entry(disk, m.indirect1, i - DIRECT_BOUND)
    } else {
        entry(
            disk,
            sub_index(m, disk, (i - INDIRECT1_BOUND) / 128),
            (i - INDIRECT1_BOUND) % 128,
        )
    }
}

/// The index blocks that data block `i` needs and the blocks before it do not.
pub open spec fn index_blocks_at(m: InodeModel, disk: Seq<Seq<u8>>, i: int) -> Seq<u32> {
    if i == DIRECT_BOUND {
        seq![m.indirect1]
    } else if i == INDIRECT1_BOUND {
        seq![m.indirect2, sub_index(m, disk, 0)]
    } else if i > INDIRECT1_BOUND && (i - INDIRECT1_BOUND) % 128 == 0 {
        seq![sub_index(m, disk, (i - INDIRECT1_BOUND) / 128)]
    } else {
        seq![]
    }
}

/// Every block that holds the first `d` data blocks of the inode, index blocks
/// included, in the order they are allocated: each data block comes right
/// after the index blocks it is the first to need.
pub open spec fn block_list(m: InodeModel, disk: Seq<Seq<u8>>, d: nat) -> Seq<u32>
    decreases d,
{
    if d == 0 {
        seq![]
    } else {
        block_list(m, disk, (d - 1) as nat) + index_blocks_at(m, disk, d - 1) + seq![
            block_id_of(m, disk, d - 1),
        ]
    }
}

/// The index blocks on the way to data block `i` are blocks of the disk.
pub open spec fn path_ok(m: InodeModel, disk: Seq<Seq<u8>>, i: int) -> bool {
    &&& 0 <= i < INDIRECT2_BOUND
    &&& m.direct.len() == INODE_DIRECT_COUNT
    &&& i >= DIRECT_BOUND ==> (m.indirect1 as int) < disk.len()
    &&& i >= INDIRECT1_BOUND ==> (m.indirect2 as int) < disk.len() && (sub_index(
        m,
        disk,
        (i - INDIRECT1_BOUND) / 128,
    ) as int) < disk.len()
}

/// The inode is consistent with the disk: its size is in range and the blocks
/// it uses are distinct blocks of the disk.
pub open spec fn inode_wf(m: InodeModel, disk: Seq<Seq<u8>>) -> bool {
    let list = block_list(m, disk, data_blocks_of(m.size));
    &&& m.direct.len() == INODE_DIRECT_COUNT
    &&& m.size as int + BLOCK_SZ <= u32::MAX
    &&& data_blocks_of(m.size) <= INDIRECT2_BOUND
    &&& list.no_duplicates()
    &&& forall|k: int| 0 <= k < list.len() ==> (#[trigger] list[k] as int) < disk.len()
}

proof fn lemma_ceil_step(x: int)
    requires
        x >= 1,
    ensures
        (x + 1 + 127) / 128 - (x + 127) / 128 == if x % 128 == 0 {
            1int
        } else {
            0int
        },
{
    let q = x / 128;
    let r = x % 128;
    lemma_fundamental_div_mod_converse(x, 128, q, r);
    assert(x == 128 * q + r) by (nonlinear_arith)
        requires
            q == x / 128,
            r == x % 128,
    ;
    if r == 0 {
        lemma_fundamental_div_mod_converse(x + 127, 128, q, 127);
        lemma_fundamental_div_mod_converse(x + 128, 128, q + 1, 0);
    } else {
        lemma_fundamental_div_mod_converse(x + 127, 128, q + 1, r - 1);
        lemma_fundamental_div_mod_converse(x + 128, 128, q + 1, r);
    }
}

/// Data block `i` adds itself and the index blocks it is the first to need.
pub proof fn lemma_total_step(m: InodeModel, disk: Seq<Seq<u8>>, i: nat)
    ensures
        total_blocks_of(i + 1) == total_blocks_of(i) + index_blocks_at(m, disk, i as int).len() + 1,
{
    if i > INDIRECT1_BOUND {
        lemma_ceil_step(i - INDIRECT1_BOUND);
    }
}

/// `total_blocks_of` grows with its argument.
pub proof fn lemma_total_monotone(m: InodeModel, disk: Seq<Seq<u8>>, a: nat, b: nat)
    requires
        a <= b,
    ensures
        total_blocks_of(a) + (b - a) <= total_blocks_of(b),
    decreases b - a,
{
    if a < b {
        lemma_total_monotone(m, disk, a, (b - 1) as nat);
        lemma_total_step(m, disk, (b - 1) as nat);
    }
}

/// The list of `d` data blocks has `total_blocks_of(d)` entries.
pub proof fn lemma_list_len(m: InodeModel, disk: Seq<Seq<u8>>, d: nat)
    ensures
        block_list(m, disk, d).len() == total_blocks_of(d),
    decreases d,
{
    if d > 0 {
        lemma_list_len(m, disk, (d - 1) as nat);
        lemma_total_step(m, disk, (d - 1) as nat);
    }
}

/// The list for fewer data blocks is a prefix of the list for more.
pub proof fn lemma_list_prefix(m: InodeModel, disk: Seq<Seq<u8>>, a: nat, b: nat)
    requires
        a <= b,
    ensures
        block_list(m, disk, a).len() <= block_list(m, disk, b).len(),
        block_list(m, disk, b).subrange(0, block_list(m, disk, a).len() as int) == block_list(
            m,
            disk,
            a,
        ),
    decreases b - a,
{
    if a < b {
        lemma_list_prefix(m, disk, a, (b - 1) as nat);
        let lb1 = block_list(m, disk, (b - 1) as nat);
        let la = block_list(m, disk, a);
        assert(block_list(m, disk, b).subrange(0, la.len() as int) =~= lb1.subrange(
            0,
            la.len() as int,
        ));
    } else {
        assert(block_list(m, disk, b).subrange(0, block_list(m, disk, a).len() as int)
            =~= block_list(m, disk, a));
    }
}

/// Where data block `j` and the index blocks it introduces sit in the list.
pub proof fn lemma_list_at(m: InodeModel, disk: Seq<Seq<u8>>, d: nat, j: nat)
    requires
        j < d,
    ensures
        block_list(m, disk, d).len() == total_blocks_of(d),
        total_blocks_of(j + 1) <= total_blocks_of(d),
        block_list(m, disk, d)[total_blocks_of(j + 1) - 1] == block_id_of(m, disk, j as int),
        forall|k: int|
            0 <= k < index_blocks_at(m, disk, j as int).len() ==> block_list(m, disk, d)[total_blocks_of(
                j,
            ) + k] == #[trigger] index_blocks_at(m, disk, j as int)[k],
{
    lemma_list_prefix(m, disk, j + 1, d);
    lemma_list_len(m, disk, j + 1);
    lemma_list_len(m, disk, j);
    lemma_list_len(m, disk, d);
    let full = block_list(m, disk, d);
    let pre = block_list(m, disk, j + 1);
    assert forall|k: int| 0 <= k < pre.len() implies full[k] == pre[k] by {
        assert(full.subrange(0, pre.len() as int)[k] == full[k]);
    }
}

/// The index blocks on the way to data block `i < d` are in the list of `d` data blocks.
pub proof fn lemma_path_in_list(m: InodeModel, disk: Seq<Seq<u8>>, d: nat, i: int)
    requires
        0 <= i < d,
        d <= INDIRECT2_BOUND,
    ensures
        i >= DIRECT_BOUND ==> block_list(m, disk, d)[DIRECT_BOUND as int] == m.indirect1,
        i >= INDIRECT1_BOUND ==> block_list(m, disk, d)[total_blocks_of(INDIRECT1_BOUND as nat) as int]
            == m.indirect2,
        i >= INDIRECT1_BOUND ==> block_list(m, disk, d)[sub_pos((i - INDIRECT1_BOUND) / 128)]
            == sub_index(m, disk, (i - INDIRECT1_BOUND) / 128),
        i >= INDIRECT1_BOUND ==> sub_pos((i - INDIRECT1_BOUND) / 128) < total_blocks_of(
            (INDIRECT1_BOUND + 128 * ((i - INDIRECT1_BOUND) / 128) + 1) as nat,
        ) - 1,
        block_list(m, disk, d).len() == total_blocks_of(d),
{
    lemma_list_len(m, disk, d);
    if i >= DIRECT_BOUND {
        lemma_list_at(m, disk, d, DIRECT_BOUND as nat);
        assert(index_blocks_at(m, disk, DIRECT_BOUND as int)[0] == m.indirect1);
    }
    if i >= INDIRECT1_BOUND {
        lemma_list_at(m, disk, d, INDIRECT1_BOUND as nat);
        assert(index_blocks_at(m, disk, INDIRECT1_BOUND as int)[0] == m.indirect2);
        let a = (i - INDIRECT1_BOUND) / 128;
        assert(0 <= a && INDIRECT1_BOUND + 128 * a <= i) by (nonlinear_arith)
            requires
                a == (i - INDIRECT1_BOUND) / 128,
                i >= INDIRECT1_BOUND,
        ;
        let j = INDIRECT1_BOUND + 128 * a;
        lemma_list_at(m, disk, d, j as nat);
        lemma_total_step(m, disk, j as nat);
        if a == 0 {
            assert(index_blocks_at(m, disk, j)[1] == sub_index(m, disk, 0));
        } else {
            assert((j - INDIRECT1_BOUND) % 128 == 0 && (j - INDIRECT1_BOUND) / 128 == a) by {
                lemma_fundamental_div_mod_converse(j - INDIRECT1_BOUND, 128, a, 0);
            }
            assert(index_blocks_at(m, disk, j)[0] == sub_index(m, disk, a));
        }
    }
}

/// Position in the block list of the index block for group `a` of the doubly indirect range.
pub open spec fn sub_pos(a: int) -> int {
    if a == 0 {
        total_blocks_of(INDIRECT1_BOUND as nat) + 1int
    } else {
        total_blocks_of((INDIRECT1_BOUND + 128 * a) as nat) as int
    }
}

/// In a consistent inode, the way to each data block goes through blocks of the disk.
pub proof fn lemma_wf_path(m: InodeModel, disk: Seq<Seq<u8>>, i: int)
    requires
        inode_wf(m, disk),
        0 <= i < data_blocks_of(m.size),
    ensures
        path_ok(m, disk, i),
        (block_id_of(m, disk, i) as int) < disk.len(),
{
    let d = data_blocks_of(m.size);
    lemma_path_in_list(m, disk, d, i);
    lemma_list_at(m, disk, d, i as nat);
    lemma_total_monotone(m, disk, (i + 1) as nat, d);
    if i >= INDIRECT1_BOUND {
        let a = (i - INDIRECT1_BOUND) / 128;
        assert(a * 128 <= i - INDIRECT1_BOUND) by (nonlinear_arith)
            requires
                a == (i - INDIRECT1_BOUND) / 128,
                i >= INDIRECT1_BOUND,
        ;
        lemma_total_monotone(m, disk, (INDIRECT1_BOUND + 128 * a + 1) as nat, d);
    }
}

impl DiskInode {
    /// Makes the inode an empty file or directory of type `type_`.
    pub fn initialize(&mut self, type_: DiskInodeType)
        ensures
            final(self).size == 0,
            forall|i: int| 0 <= i < INODE_DIRECT_COUNT ==> #[trigger] final(self).direct@[i] == 0,
            final(self).indirect1 == 0,
            final(self).indirect2 == 0,
            final(self).type_ == type_,
    {
        self.size = 0;
        let mut i: usize = 0;
        while i < INODE_DIRECT_COUNT
            invariant
                i <= INODE_DIRECT_COUNT,
                self.size == 0,
                self.direct@.len() == INODE_DIRECT_COUNT,
                forall|k: int| 0 <= k < i ==> #[trigger] self.direct@[k] == 0,
            decreases INODE_DIRECT_COUNT - i,
        {
            self.direct[i] = 0;
            i = i + 1;
        }
        self.indirect1 = 0;
        self.indirect2 = 0;
        self.type_ = type_;
    }

    /// Whether the inode is a directory.
    pub fn is_dir(&self) -> (r: bool)
        ensures
            r == self@.is_dir,
    {
        self.type_ == DiskInodeType::Directory
    }

    /// Whether the inode is a regular file.
    pub fn is_file(&self) -> (r: bool)
        ensures
            r == !self@.is_dir,
    {
        self.type_ == DiskInodeType::File
    }

    /// The disk block that holds data block `inner_id` of the file.
    pub fn get_block_id<D: BlockDevice>(&self, inner_id: u32, cache: &mut BlockCacheManager<D>) -> (r: u32)
        requires
            old(cache).wf(),
            path_ok(self@, old(cache)@, inner_id as int),
        ensures
            final(cache).wf(),
            final(cache)@ == old(cache)@,
            r == block_id_of(self@, old(cache)@, inner_id as int),
    {
        let inner_id = inner_id as usize;
        if inner_id < INODE_DIRECT_COUNT {
            self.direct[inner_id]
        } else if inner_id < INDIRECT1_BOUND {
            cache.read_u32(self.indirect1 as usize, 4 * (inner_id - INODE_DIRECT_COUNT))
        } else {
            let last = inner_id - INDIRECT1_BOUND;
            proof {
                assert(last / 128 < 128 && last % 128 < 128) by (nonlinear_arith)
                    requires
                        last < INDIRECT2_BOUND - INDIRECT1_BOUND,
                ;
            }
            let indirect1 = cache.read_u32(self.indirect2 as usize, 4 * (last / INODE_INDIRECT1_COUNT));
            cache.read_u32(indirect1 as usize, 4 * (last % INODE_INDIRECT1_COUNT))
        }
    }

    /// Number of data blocks of the file.
    pub fn data_blocks(&self) -> (r: u32)
        requires
            self.size as int + BLOCK_SZ <= u32::MAX,
        ensures
            r == data_blocks_of(self.size),
    {
        Self::_data_blocks(self.size)
    }

    fn _data_blocks(size: u32) -> (r: u32)
        requires
            size as int + BLOCK_SZ <= u32::MAX,
        ensures
            r == data_blocks_of(size),
    {
        (size + BLOCK_SZ as u32 - 1) / BLOCK_SZ as u32
    }

    /// Number of blocks, data and index blocks together, of a file of `size` bytes.
    pub fn total_blocks(size: u32) -> (r: u32)
        requires
            size as int + BLOCK_SZ <= u32::MAX,
        ensures
            r == total_blocks_of(data_blocks_of(size)),
    {
        let data_blocks = Self::_data_blocks(size) as usize;
        let mut total = data_blocks as usize;
        if data_blocks > INODE_DIRECT_COUNT {
            total += 1;
        }
        if data_blocks > INDIRECT1_BOUND {
            total += 1;
            total += (data_blocks - INDIRECT1_BOUND + INODE_INDIRECT1_COUNT - 1) / INODE_INDIRECT1_COUNT;
        }
        total as u32
    }

    /// How many more blocks, data and index blocks together, the file needs to grow to `new_size`.
    pub fn blocks_num_needed(&self, new_size: u32) -> (r: u32)
        requires
            new_size >= self.size,
            new_size as int + BLOCK_SZ <= u32::MAX,
        ensures
            r == total_blocks_of(data_blocks_of(new_size)) - total_blocks_of(data_blocks_of(self.size)),
    {
        proof {
            lemma_total_monotone(self@, Seq::empty(), data_blocks_of(self.size), data_blocks_of(new_size));
        }
        Self::total_blocks(new_size) - Self::total_blocks(self.size)
    }
}

/// The contents of the file: byte `k` is byte `k % BLOCK_SZ` of data block `k / BLOCK_SZ`.
pub open spec fn file_bytes(m: InodeModel, disk: Seq<Seq<u8>>) -> Seq<u8> {
    Seq::new(
        m.size as nat,
        |k: int| disk[block_id_of(m, disk, k / BLOCK_SZ as int) as int][k % BLOCK_SZ as int],
    )
}

/// `blk` holds one of the first `d` data blocks of the inode.
pub open spec fn is_data_block(m: InodeModel, disk: Seq<Seq<u8>>, d: nat, blk: int) -> bool {
    exists|i: int| 0 <= i < d && block_id_of(m, disk, i) as int == blk
}

proof fn lemma_in_block(start: int, k: int)
    requires
        0 <= start <= k < (start / 512 + 1) * 512,
    ensures
        k / 512 == start / 512,
        k % 512 == start % 512 + (k - start),
{
    let q = start / 512;
    let r = start % 512;
    assert(start == q * 512 + r && 0 <= r < 512) by (nonlinear_arith)
        requires
            q == start / 512,
            r == start % 512,
            start >= 0,
    ;
    lemma_fundamental_div_mod_converse(k, 512, q, r + (k - start));
}

/// Byte `k` of a file of `size` bytes lies in one of its data blocks.
pub proof fn lemma_byte_in_file(k: int, size: u32)
    requires
        0 <= k < size,
    ensures
        k / 512 < data_blocks_of(size),
{
    let q = k / 512;
    assert(q * 512 <= k) by (nonlinear_arith)
        requires
            q == k / 512,
            k >= 0,
    ;
    lemma_fundamental_div_mod_converse(size + 511, 512, (size + 511) / 512, (size + 511) % 512);
    assert((size + 511) / 512 > q) by (nonlinear_arith)
        requires
            size + 511 == ((size + 511) / 512) * 512 + (size + 511) % 512,
            0 <= (size + 511) % 512 < 512,
            q * 512 <= k < size,
    ;
}

proof fn lemma_block_start_le(start: int)
    requires
        start >= 0,
    ensures
        start < (start / 512 + 1) * 512,
        (start / 512 + 1) * 512 == start + (512 - start % 512),
{
    let q = start / 512;
    let r = start % 512;
    assert(start == q * 512 + r && 0 <= r < 512) by (nonlinear_arith)
        requires
            q == start / 512,
            r == start % 512,
            start >= 0,
    ;
}

/// Positions in the list: data block `j` is not an index block, and distinct
/// data blocks sit at distinct positions.
proof fn lemma_positions(m: InodeModel, disk: Seq<Seq<u8>>, d: nat, i: nat, j: nat, k: int)
    requires
        i < d,
        j < d,
        0 <= k < index_blocks_at(m, disk, i as int).len(),
    ensures
        total_blocks_of(j + 1) - 1 != total_blocks_of(i) + k,
        i != j ==> total_blocks_of(j + 1) - 1 != total_blocks_of(i + 1) - 1,
        total_blocks_of(i) + k < total_blocks_of(d),
{
    lemma_total_step(m, disk, i);
    lemma_total_step(m, disk, j);
    lemma_total_monotone(m, disk, i + 1, d);
    if i < j {
        lemma_total_monotone(m, disk, i + 1, j);
    } else if j < i {
        lemma_total_monotone(m, disk, j + 1, i);
    }
}

/// In a consistent inode, data block `j` is none of the index blocks, and data
/// blocks of distinct indices are distinct.
pub proof fn lemma_data_block_distinct(m: InodeModel, disk: Seq<Seq<u8>>, i: nat, j: nat)
    requires
        inode_wf(m, disk),
        i < data_blocks_of(m.size),
        j < data_blocks_of(m.size),
    ensures
        forall|k: int|
            0 <= k < index_blocks_at(m, disk, i as int).len() ==> #[trigger] index_blocks_at(
                m,
                disk,
                i as int,
            )[k] != block_id_of(m, disk, j as int),
        i != j ==> block_id_of(m, disk, i as int) != block_id_of(m, disk, j as int),
{
    let d = data_blocks_of(m.size);
    let list = block_list(m, disk, d);
    lemma_list_at(m, disk, d, i);
    lemma_list_at(m, disk, d, j);
    lemma_total_monotone(m, disk, j + 1, d);
    lemma_total_monotone(m, disk, i + 1, d);
    assert forall|k: int|
        0 <= k < index_blocks_at(m, disk, i as int).len() implies #[trigger] index_blocks_at(
        m,
        disk,
        i as int,
    )[k] != block_id_of(m, disk, j as int) by {
        lemma_positions(m, disk, d, i, j, k);
    }
    if i != j {
        lemma_total_step(m, disk, i);
        lemma_total_step(m, disk, j);
        if i < j {
            lemma_total_monotone(m, disk, i + 1, j);
        } else {
            lemma_total_monotone(m, disk, j + 1, i);
        }
    }
}

/// Two views of an inode that agree on every data block and index block give the same list.
pub proof fn lemma_list_agree(m1: InodeModel, disk1: Seq<Seq<u8>>, m2: InodeModel, disk2: Seq<Seq<u8>>, d: nat)
    requires
        forall|i: int| 0 <= i < d ==> #[trigger] block_id_of(m1, disk1, i) == block_id_of(m2, disk2, i),
        forall|i: int|
            0 <= i < d ==> #[trigger] index_blocks_at(m1, disk1, i) == index_blocks_at(m2, disk2, i),
    ensures
        block_list(m1, disk1, d) == block_list(m2, disk2, d),
    decreases d,
{
    if d > 0 {
        lemma_list_agree(m1, disk1, m2, disk2, (d - 1) as nat);
        assert(index_blocks_at(m1, disk1, d - 1) == index_blocks_at(m2, disk2, d - 1));
        assert(block_id_of(m1, disk1, d - 1) == block_id_of(m2, disk2, d - 1));
    }
}

/// Every data block and index block of the first `d` data blocks is in the block list.
pub proof fn lemma_used_in_list(m: InodeModel, disk: Seq<Seq<u8>>, d: nat, blk: int)
    requires
        is_index_block(m, disk, d, blk) || is_data_block(m, disk, d, blk),
    ensures
        exists|k: int| 0 <= k < block_list(m, disk, d).len() && block_list(m, disk, d)[k] as int == blk,
{
    let list = block_list(m, disk, d);
    if is_data_block(m, disk, d, blk) {
        let i = choose|i: int| 0 <= i < d && block_id_of(m, disk, i) as int == blk;
        lemma_list_at(m, disk, d, i as nat);
        lemma_total_step(m, disk, i as nat);
        assert(list[total_blocks_of((i + 1) as nat) - 1] as int == blk);
    } else {
        let (i, k) = choose|i: int, k: int|
            0 <= i < d && 0 <= k < index_blocks_at(m, disk, i).len() && #[trigger] index_blocks_at(
                m,
                disk,
                i,
            )[k] as int == blk;
        lemma_list_at(m, disk, d, i as nat);
        lemma_total_step(m, disk, i as nat);
        assert(list[total_blocks_of(i as nat) + k] == index_blocks_at(m, disk, i)[k]);
    }
}

/// A consistent inode reads the same on two disks of one size that agree on every
/// block it uses: the same blocks, the same bytes, and it is consistent on both.
pub proof fn lemma_inode_frame(m: InodeModel, disk1: Seq<Seq<u8>>, disk2: Seq<Seq<u8>>)
    requires
        inode_wf(m, disk1),
        disk1.len() == disk2.len(),
        forall|k: int|
            0 <= k < block_list(m, disk1, data_blocks_of(m.size)).len() ==> disk2[block_list(
                m,
                disk1,
                data_blocks_of(m.size),
            )[k] as int] == disk1[block_list(m, disk1, data_blocks_of(m.size))[k] as int],
    ensures
        block_list(m, disk2, data_blocks_of(m.size)) == block_list(m, disk1, data_blocks_of(m.size)),
        forall|i: int|
            0 <= i < data_blocks_of(m.size) ==> #[trigger] block_id_of(m, disk2, i) == block_id_of(
                m,
                disk1,
                i,
            ),
        inode_wf(m, disk2),
        file_bytes(m, disk2) == file_bytes(m, disk1),
{
    let d = data_blocks_of(m.size);
    let list = block_list(m, disk1, d);
    lemma_list_len(m, disk1, d);
    assert forall|i: int|
        #![trigger block_id_of(m, disk2, i)]
        #![trigger index_blocks_at(m, disk2, i)]
        0 <= i < d implies block_id_of(m, disk2, i) == block_id_of(m, disk1, i) && index_blocks_at(
            m,
            disk2,
            i,
        ) == index_blocks_at(m, disk1, i) by {
        lemma_path_in_list(m, disk1, d, i);
        lemma_total_monotone(m, disk1, (i + 1) as nat, d);
        if i >= DIRECT_BOUND {
            lemma_total_monotone(m, disk1, (DIRECT_BOUND + 1) as nat, d);
            assert(disk2[m.indirect1 as int] == disk1[m.indirect1 as int]);
        }
        if i >= INDIRECT1_BOUND {
            lemma_total_monotone(m, disk1, (INDIRECT1_BOUND + 1) as nat, d);
            assert(disk2[m.indirect2 as int] == disk1[m.indirect2 as int]);
            let a = (i - INDIRECT1_BOUND) / 128;
            assert(0 <= a && INDIRECT1_BOUND + 128 * a <= i) by (nonlinear_arith)
                requires
                    a == (i - INDIRECT1_BOUND) / 128,
                    i >= INDIRECT1_BOUND,
            ;
            lemma_total_monotone(m, disk1, (INDIRECT1_BOUND + 128 * a + 1) as nat, d);
            let s = sub_index(m, disk1, a);
            assert(sub_index(m, disk2, a) == s);
            assert(disk2[s as int] == disk1[s as int]);
            if i > INDIRECT1_BOUND && (i - INDIRECT1_BOUND) % 128 == 0 {
                assert(sub_index(m, disk2, (i - INDIRECT1_BOUND) / 128) == sub_index(m, disk1, (i - INDIRECT1_BOUND) / 128));
            }
            if i == INDIRECT1_BOUND {
                assert(a == 0);
            }
        }
    }
    lemma_list_agree(m, disk2, m, disk1, d);
    assert forall|k: int| 0 <= k < m.size implies #[trigger] file_bytes(m, disk2)[k] == file_bytes(
        m,
        disk1,
    )[k] by {
        lemma_byte_in_file(k, m.size);
        let j = k / BLOCK_SZ as int;
        lemma_list_at(m, disk1, d, j as nat);
        assert(block_id_of(m, disk2, j) == block_id_of(m, disk1, j));
    }
    assert(file_bytes(m, disk2) =~= file_bytes(m, disk1));
}

/// Writing into a data block of a consistent inode changes no block pointer and
/// only the file bytes held by that block.
pub proof fn lemma_write_data_block(m: InodeModel, disk: Seq<Seq<u8>>, j: nat, new_block: Seq<u8>)
    requires
        inode_wf(m, disk),
        j < data_blocks_of(m.size),
    ensures
        ({
            let disk2 = disk.update(block_id_of(m, disk, j as int) as int, new_block);
            &&& forall|i: int|
                0 <= i < data_blocks_of(m.size) ==> #[trigger] block_id_of(m, disk2, i) == block_id_of(
                    m,
                    disk,
                    i,
                )
            &&& forall|i: int|
                0 <= i < data_blocks_of(m.size) ==> #[trigger] index_blocks_at(m, disk2, i)
                    == index_blocks_at(m, disk, i)
            &&& block_list(m, disk2, data_blocks_of(m.size)) == block_list(m, disk, data_blocks_of(m.size))
            &&& inode_wf(m, disk2)
        }),
{
    let d = data_blocks_of(m.size);
    let b = block_id_of(m, disk, j as int);
    let disk2 = disk.update(b as int, new_block);
    lemma_wf_path(m, disk, j as int);
    assert forall|i: int|
        #![trigger block_id_of(m, disk2, i)]
        #![trigger index_blocks_at(m, disk2, i)]
        0 <= i < d implies block_id_of(m, disk2, i) == block_id_of(m, disk, i) && index_blocks_at(
            m,
            disk2,
            i,
        ) == index_blocks_at(m, disk, i) by {
        lemma_wf_path(m, disk, i);
        if i >= DIRECT_BOUND {
            lemma_data_block_distinct(m, disk, DIRECT_BOUND as nat, j);
            assert(index_blocks_at(m, disk, DIRECT_BOUND as int)[0] == m.indirect1);
        }
        if i >= INDIRECT1_BOUND {
            lemma_data_block_distinct(m, disk, INDIRECT1_BOUND as nat, j);
            assert(index_blocks_at(m, disk, INDIRECT1_BOUND as int)[0] == m.indirect2);
            let a = (i - INDIRECT1_BOUND) / 128;
            assert(0 <= a && INDIRECT1_BOUND + 128 * a <= i) by (nonlinear_arith)
                requires
                    a == (i - INDIRECT1_BOUND) / 128,
                    i >= INDIRECT1_BOUND,
            ;
            let g = (INDIRECT1_BOUND + 128 * a) as nat;
            lemma_data_block_distinct(m, disk, g, j);
            if a == 0 {
                assert(index_blocks_at(m, disk, g as int)[1] == sub_index(m, disk, 0));
            } else {
                lemma_fundamental_div_mod_converse(g - INDIRECT1_BOUND, 128, a, 0);
                assert(index_blocks_at(m, disk, g as int)[0] == sub_index(m, disk, a));
            }
        }
    }
    lemma_list_agree(m, disk2, m, disk, d);
}

/// The number of bytes a read or write of `len` bytes at `offset` moves in a file of `size` bytes.
pub open spec fn io_len(offset: int, len: int, size: int) -> int {
    let end = if offset + len < size {
        offset + len
    } else {
        size
    };
    if offset < end {
        end - offset
    } else {
        0
    }
}

impl DiskInode {
    /// Reads file bytes from `offset` into `buf`, stopping at the end of the file,
    /// and returns how many bytes were read.
    pub fn read_at<D: BlockDevice>(&self, offset: usize, buf: &mut [u8], cache: &mut BlockCacheManager<D>) -> (r: usize)
        requires
            old(cache).wf(),
            inode_wf(self@, old(cache)@),
            offset + old(buf)@.len() <= usize::MAX,
        ensures
            final(cache).wf(),
            final(cache)@ == old(cache)@,
            r == io_len(offset as int, old(buf)@.len() as int, self.size as int),
            final(buf)@.len() == old(buf)@.len(),
            forall|k: int|
                0 <= k < final(buf)@.len() ==> #[trigger] final(buf)@[k] == if k < r {
                    file_bytes(self@, old(cache)@)[offset + k]
                } else {
                    old(buf)@[k]
                },
    {
        let ghost disk = cache@;
        let mut start = offset;
        let end = if offset + buf.len() < self.size as usize {
            offset + buf.len()
        } else {
            self.size as usize
        };
        if start >= end {
            return 0;
        }
        let mut start_block = start / BLOCK_SZ;
        let mut read_size: usize = 0;
        loop
            invariant_except_break
                start == offset + read_size,
                start < end,
                start_block == start / 512,
            invariant
                cache.wf(),
                cache@ == disk,
                disk == old(cache)@,
                inode_wf(self@, disk),
                end <= self.size,
                end == offset + io_len(offset as int, old(buf)@.len() as int, self.size as int),
                read_size <= end - offset,
                buf@.len() == old(buf)@.len(),
                offset + old(buf)@.len() <= usize::MAX,
                forall|k: int|
                    0 <= k < buf@.len() ==> #[trigger] buf@[k] == if k < read_size {
                        file_bytes(self@, disk)[offset + k]
                    } else {
                        old(buf)@[k]
                    },
            ensures
                read_size == end - offset,
            decreases end - start,
        {
            proof {
                lemma_block_start_le(start as int);
                lemma_byte_in_file(start as int, self.size);
                lemma_wf_path(self@, disk, start_block as int);
                cache.lemma_wf();
            }
            let mut end_current_block = (start / BLOCK_SZ + 1) * BLOCK_SZ;
            if end_current_block > end {
                end_current_block = end;
            }
            let block_read_size = end_current_block - start;
            let bid = self.get_block_id(start_block as u32, cache);
            let data = cache.read(bid as usize, start % BLOCK_SZ, block_read_size);
            let mut i: usize = 0;
            while i < block_read_size
                invariant
                    i <= block_read_size,
                    data@.len() == block_read_size,
                    read_size + block_read_size <= buf@.len(),
                    offset + old(buf)@.len() <= usize::MAX,
                    buf@.len() == old(buf)@.len(),
                    forall|k: int|
                        0 <= k < buf@.len() ==> #[trigger] buf@[k] == if k < read_size {
                            file_bytes(self@, disk)[offset + k]
                        } else if k < read_size + i {
                            data@[k - read_size]
                        } else {
                            old(buf)@[k]
                        },
                decreases block_read_size - i,
            {
                buf[read_size + i] = data[i];
                i = i + 1;
            }
            proof {
                assert forall|k: int|
                    read_size <= k < read_size + block_read_size implies data@[k - read_size]
                    == #[trigger] file_bytes(self@, disk)[offset + k] by {
                    lemma_in_block(start as int, offset + k);
                }
            }
            read_size = read_size + block_read_size;
            if end_current_block == end {
                break ;
            }
            start_block = start_block + 1;
            start = end_current_block;
            proof {
                lemma_fundamental_div_mod_converse(start as int, 512, start_block as int, 0);
            }
        }
        read_size
    }

    /// Overwrites file bytes from `offset` with `buf`, stopping at the end of the
    /// file (which does not grow), and returns how many bytes were written.
    ///
    /// Only data blocks of the file change; a write of no byte touches no block.
    pub fn write_at<D: BlockDevice>(&mut self, offset: usize, buf: &[u8], cache: &mut BlockCacheManager<D>) -> (r: usize)
        requires
            old(cache).wf(),
            inode_wf(old(self)@, old(cache)@),
            offset <= old(self).size,
            offset + buf@.len() <= usize::MAX,
        ensures
            *final(self) == *old(self),
            final(cache).wf(),
            final(cache)@.len() == old(cache)@.len(),
            r == io_len(offset as int, buf@.len() as int, old(self).size as int),
            file_bytes(old(self)@, final(cache)@) == splice(
                file_bytes(old(self)@, old(cache)@),
                offset as int,
                buf@.subrange(0, r as int),
            ),
            block_list(old(self)@, final(cache)@, data_blocks_of(old(self).size)) == block_list(
                old(self)@,
                old(cache)@,
                data_blocks_of(old(self).size),
            ),
            inode_wf(old(self)@, final(cache)@),
            forall|blk: int|
                0 <= blk < old(cache)@.len() && !is_data_block(
                    old(self)@,
                    old(cache)@,
                    data_blocks_of(old(self).size),
                    blk,
                ) ==> #[trigger] final(cache)@[blk] == old(cache)@[blk],
    {
        let ghost disk0 = cache@;
        let ghost m = self@;
        let ghost d = data_blocks_of(self.size);
        let mut start = offset;
        let end = if offset + buf.len() < self.size as usize {
            offset + buf.len()
        } else {
            self.size as usize
        };
        if start >= end {
            proof {
                assert(file_bytes(m, disk0) =~= splice(file_bytes(m, disk0), offset as int, buf@.subrange(0, 0)));
            }
            return 0;
        }
        let mut start_block = start / BLOCK_SZ;
        let mut write_size: usize = 0;
        loop
            invariant_except_break
                start == offset + write_size,
                start < end,
                start_block == start / 512,
            invariant
                cache.wf(),
                disk0 == old(cache)@,
                *self == *old(self),
                m == self@,
                d == data_blocks_of(self.size),
                cache@.len() == disk0.len(),
                inode_wf(m, cache@),
                inode_wf(m, disk0),
                forall|i: int| 0 <= i < d ==> #[trigger] block_id_of(m, cache@, i) == block_id_of(m, disk0, i),
                block_list(m, cache@, d) == block_list(m, disk0, d),
                forall|blk: int|
                    0 <= blk < disk0.len() && !is_data_block(m, disk0, d, blk) ==> #[trigger] cache@[blk]
                        == disk0[blk],
                end <= self.size,
                end == offset + io_len(offset as int, buf@.len() as int, self.size as int),
                write_size <= end - offset,
                file_bytes(m, cache@).len() == self.size,
                forall|k: int|
                    0 <= k < self.size ==> #[trigger] file_bytes(m, cache@)[k] == if offset <= k < offset
                        + write_size {
                        buf@[k - offset]
                    } else {
                        file_bytes(m, disk0)[k]
                    },
            ensures
                write_size == end - offset,
            decreases end - start,
        {
            let ghost cur = cache@;
            proof {
                lemma_block_start_le(start as int);
                lemma_byte_in_file(start as int, self.size);
                lemma_wf_path(m, cur, start_block as int);
                cache.lemma_wf();
            }
            let mut end_current_block = (start / BLOCK_SZ + 1) * BLOCK_SZ;
            if end_current_block > end {
                end_current_block = end;
            }
            let block_write_size = end_current_block - start;
            let bid = self.get_block_id(start_block as u32, cache);
            let chunk = &buf[write_size..write_size + block_write_size];
            cache.modify(bid as usize, start % BLOCK_SZ, chunk);
            let ghost nb = splice(cur[bid as int], (start % 512) as int, chunk@);
            proof {
                lemma_write_data_block(m, cur, start_block as nat, nb);
                assert forall|blk: int|
                    0 <= blk < disk0.len() && !is_data_block(m, disk0, d, blk) implies #[trigger] cache@[blk]
                    == disk0[blk] by {
                    if blk == bid {
                        assert(block_id_of(m, disk0, start_block as int) == bid);
                    }
                }
                assert forall|k: int| 0 <= k < self.size implies #[trigger] file_bytes(m, cache@)[k] == if offset
                    <= k < offset + write_size + block_write_size {
                    buf@[k - offset]
                } else {
                    file_bytes(m, disk0)[k]
                } by {
                    lemma_byte_in_file(k, self.size);
                    let kb = k / 512;
                    assert(k == kb * 512 + k % 512 && 0 <= k % 512 < 512) by (nonlinear_arith)
                        requires
                            kb == k / 512,
                            k >= 0,
                    ;
                    assert(block_id_of(m, cache@, kb) == block_id_of(m, cur, kb));
                    let bk = block_id_of(m, cur, kb);
                    lemma_wf_path(m, cur, kb);
                    assert(file_bytes(m, cache@)[k] == cache@[bk as int][k % 512]);
                    assert(file_bytes(m, cur)[k] == cur[bk as int][k % 512]);
                    if kb == start_block {
                        assert(bk == bid);
                        assert(start_block * 512 <= start) by (nonlinear_arith)
                            requires
                                start_block == start / 512,
                        ;
                        lemma_fundamental_div_mod_converse(
                            (start_block * 512) as int,
                            512,
                            start_block as int,
                            0,
                        );
                        lemma_in_block((start_block * 512) as int, k);
                        lemma_in_block((start_block * 512) as int, start as int);
                        let o = (start % 512) as int;
                        assert(cache@[bk as int] == nb);
                        assert(nb.len() == 512);
                        if start <= k < end_current_block {
                            assert(nb[k % 512] == chunk@[k % 512 - o]);
                            assert(chunk@[k % 512 - o] == buf@[k - offset]);
                        } else {
                            assert(nb[k % 512] == cur[bk as int][k % 512]);
                        }
                    } else {
                        lemma_data_block_distinct(m, cur, kb as nat, start_block as nat);
                        assert(cache@[bk as int] == cur[bk as int]);
                    }
                }
            }
            write_size = write_size + block_write_size;
            if end_current_block == end {
                break ;
            }
            start_block = start_block + 1;
            start = end_current_block;
            proof {
                lemma_fundamental_div_mod_converse(start as int, 512, start_block as int, 0);
            }
        }
        proof {
            assert(file_bytes(m, cache@) =~= splice(file_bytes(m, disk0), offset as int, buf@.subrange(0, write_size as int)));
        }
        write_size
    }
}

/// `blk` is one of the index blocks the inode uses for its first `d` data blocks.
pub open spec fn is_index_block(m: InodeModel, disk: Seq<Seq<u8>>, d: nat, blk: int) -> bool {
    exists|i: int, k: int|
        0 <= i < d && 0 <= k < index_blocks_at(m, disk, i).len() && #[trigger] index_blocks_at(
            m,
            disk,
            i,
        )[k] as int == blk
}

/// The index block of group `a` of the doubly indirect range sits at position `158 + 129 * a`.
proof fn lemma_sub_pos(a: int)
    requires
        a >= 0,
    ensures
        sub_pos(a) == 158 + 129 * a,
        total_blocks_of((INDIRECT1_BOUND + 128 * a + 1) as nat) == 160 + 129 * a,
{
    if a > 0 {
        lemma_fundamental_div_mod_converse(128 * a + 127, 128, a, 127);
    }
    lemma_fundamental_div_mod_converse(128 * a + 1 + 127, 128, a + 1, 0);
}

/// Data block `c >= INDIRECT1_BOUND` sits at position `159 + 129 * a + b`, where
/// `c = INDIRECT1_BOUND + 128 * a + b`.
proof fn lemma_data_pos(a: int, b: int)
    requires
        a >= 0,
        0 <= b < 128,
    ensures
        total_blocks_of((INDIRECT1_BOUND + 128 * a + b + 1) as nat) == 160 + 129 * a + b,
        total_blocks_of((INDIRECT1_BOUND + 128 * a + b) as nat) == if b == 0 {
            if a == 0 {
                157
            } else {
                158 + 129 * a
            }
        } else {
            159 + 129 * a + b
        },
{
    lemma_fundamental_div_mod_converse(128 * a + b + 1 + 127, 128, a + 1, b);
    if b > 0 {
        lemma_fundamental_div_mod_converse(128 * a + b + 127, 128, a + 1, b - 1);
    } else if a > 0 {
        lemma_fundamental_div_mod_converse(128 * a + 127, 128, a, 127);
    }
}

/// Splits `c >= INDIRECT1_BOUND` into its group and its slot in the group.
proof fn lemma_group(c: int)
    requires
        c >= INDIRECT1_BOUND,
    ensures
        c == INDIRECT1_BOUND + 128 * ((c - INDIRECT1_BOUND) / 128) + (c - INDIRECT1_BOUND) % 128,
        0 <= (c - INDIRECT1_BOUND) % 128 < 128,
        (c - INDIRECT1_BOUND) / 128 >= 0,
{
    let x = c - INDIRECT1_BOUND;
    assert(x == 128 * (x / 128) + x % 128 && 0 <= x % 128 < 128 && x / 128 >= 0) by (nonlinear_arith)
        requires
            x >= 0,
    ;
}

proof fn lemma_group_of(a: int, b: int)
    requires
        a >= 0,
        0 <= b < 128,
    ensures
        (128 * a + b) / 128 == a,
        (128 * a + b) % 128 == b,
{
    lemma_fundamental_div_mod_converse(128 * a + b, 128, a, b);
}

/// Writing entry `c - DIRECT_BOUND` of the indirect block changes no earlier block
/// pointer and makes data block `c` the written value.
proof fn lemma_write_indirect1(m: InodeModel, disk: Seq<Seq<u8>>, c: int, v: u32)
    requires
        DIRECT_BOUND <= c < INDIRECT1_BOUND,
        (m.indirect1 as int) < disk.len(),
        disk[m.indirect1 as int].len() == BLOCK_SZ,
    ensures
        ({
            let disk2 = disk.update(
                m.indirect1 as int,
                splice(disk[m.indirect1 as int], 4 * (c - DIRECT_BOUND), u32_bytes(v)),
            );
            &&& forall|i: int| 0 <= i < c ==> #[trigger] block_id_of(m, disk2, i) == block_id_of(m, disk, i)
            &&& forall|i: int|
                0 <= i <= c ==> #[trigger] index_blocks_at(m, disk2, i) == index_blocks_at(m, disk, i)
            &&& block_id_of(m, disk2, c) == v
        }),
{
    let b = disk[m.indirect1 as int];
    let disk2 = disk.update(m.indirect1 as int, splice(b, 4 * (c - DIRECT_BOUND), u32_bytes(v)));
    assert forall|i: int| 0 <= i <= c implies #[trigger] block_id_of(m, disk2, i) == if i == c {
        v
    } else {
        block_id_of(m, disk, i)
    } by {
        if i >= DIRECT_BOUND {
            lemma_u32_splice(b, 4 * (c - DIRECT_BOUND), v, 4 * (i - DIRECT_BOUND));
        }
    }
}

/// Writing entry `a0` of the doubly indirect block changes no block pointer of
/// data blocks before group `a0` and makes index block `a0` the written value.
proof fn lemma_write_indirect2(m: InodeModel, disk: Seq<Seq<u8>>, a0: int, v: u32)
    requires
        0 <= a0 < 128,
        (m.indirect2 as int) < disk.len(),
        disk[m.indirect2 as int].len() == BLOCK_SZ,
        m.indirect1 != m.indirect2,
        (m.indirect1 as int) < disk.len(),
        forall|a: int| 0 <= a < a0 ==> #[trigger] sub_index(m, disk, a) != m.indirect2,
        forall|a: int| 0 <= a < a0 ==> (#[trigger] sub_index(m, disk, a) as int) < disk.len(),
    ensures
        ({
            let disk2 = disk.update(
                m.indirect2 as int,
                splice(disk[m.indirect2 as int], 4 * a0, u32_bytes(v)),
            );
            let c = INDIRECT1_BOUND + 128 * a0;
            &&& forall|i: int| 0 <= i < c ==> #[trigger] block_id_of(m, disk2, i) == block_id_of(m, disk, i)
            &&& forall|i: int|
                0 <= i < c ==> #[trigger] index_blocks_at(m, disk2, i) == index_blocks_at(m, disk, i)
            &&& sub_index(m, disk2, a0) == v
            &&& forall|a: int| 0 <= a < 128 && a != a0 ==> #[trigger] sub_index(m, disk2, a) == sub_index(m, disk, a)
        }),
{
    let b = disk[m.indirect2 as int];
    let disk2 = disk.update(m.indirect2 as int, splice(b, 4 * a0, u32_bytes(v)));
    let c = INDIRECT1_BOUND + 128 * a0;
    assert forall|a: int| 0 <= a < 128 implies #[trigger] sub_index(m, disk2, a) == if a == a0 {
        v
    } else {
        sub_index(m, disk, a)
    } by {
        lemma_u32_splice(b, 4 * a0, v, 4 * a);
    }
    assert forall|i: int| 0 <= i < c implies #[trigger] block_id_of(m, disk2, i) == block_id_of(
        m,
        disk,
        i,
    ) by {
        if i >= INDIRECT1_BOUND {
            lemma_group(i);
            let a = (i - INDIRECT1_BOUND) / 128;
            assert(a < a0) by (nonlinear_arith)
                requires
                    i == INDIRECT1_BOUND + 128 * a + (i - INDIRECT1_BOUND) % 128,
                    0 <= (i - INDIRECT1_BOUND) % 128 < 128,
                    i < INDIRECT1_BOUND + 128 * a0,
            ;
            assert(sub_index(m, disk2, a) == sub_index(m, disk, a));
        }
    }
    assert forall|i: int| 0 <= i < c implies #[trigger] index_blocks_at(m, disk2, i)
        == index_blocks_at(m, disk, i) by {
        if i > INDIRECT1_BOUND && (i - INDIRECT1_BOUND) % 128 == 0 {
            lemma_group(i);
            let a = (i - INDIRECT1_BOUND) / 128;
            assert(a < a0) by (nonlinear_arith)
                requires
                    i == INDIRECT1_BOUND + 128 * a,
                    i < INDIRECT1_BOUND + 128 * a0,
            ;
            assert(sub_index(m, disk2, a) == sub_index(m, disk, a));
        }
        if i == INDIRECT1_BOUND {
            assert(a0 > 0);
            assert(sub_index(m, disk2, 0) == sub_index(m, disk, 0));
        }
    }
}

/// Writing entry `b0` of index block `a0` of the doubly indirect range changes no
/// earlier block pointer and makes data block `INDIRECT1_BOUND + 128 * a0 + b0` the written value.
proof fn lemma_write_sub(m: InodeModel, disk: Seq<Seq<u8>>, a0: int, b0: int, v: u32)
    requires
        0 <= a0 < 128,
        0 <= b0 < 128,
        (sub_index(m, disk, a0) as int) < disk.len(),
        disk[sub_index(m, disk, a0) as int].len() == BLOCK_SZ,
        sub_index(m, disk, a0) != m.indirect1,
        sub_index(m, disk, a0) != m.indirect2,
        (m.indirect1 as int) < disk.len(),
        (m.indirect2 as int) < disk.len(),
        forall|a: int| 0 <= a < a0 ==> #[trigger] sub_index(m, disk, a) != sub_index(m, disk, a0),
        forall|a: int| 0 <= a < a0 ==> (#[trigger] sub_index(m, disk, a) as int) < disk.len(),
    ensures
        ({
            let s = sub_index(m, disk, a0);
            let disk2 = disk.update(s as int, splice(disk[s as int], 4 * b0, u32_bytes(v)));
            let c = INDIRECT1_BOUND + 128 * a0 + b0;
            &&& forall|i: int| 0 <= i < c ==> #[trigger] block_id_of(m, disk2, i) == block_id_of(m, disk, i)
            &&& forall|i: int|
                0 <= i <= c ==> #[trigger] index_blocks_at(m, disk2, i) == index_blocks_at(m, disk, i)
            &&& block_id_of(m, disk2, c) == v
            &&& forall|a: int| #[trigger] sub_index(m, disk2, a) == sub_index(m, disk, a)
        }),
{
    let s = sub_index(m, disk, a0);
    let b = disk[s as int];
    let disk2 = disk.update(s as int, splice(b, 4 * b0, u32_bytes(v)));
    let c = INDIRECT1_BOUND + 128 * a0 + b0;
    assert forall|a: int| #[trigger] sub_index(m, disk2, a) == sub_index(m, disk, a) by {}
    assert forall|i: int| 0 <= i <= c implies #[trigger] block_id_of(m, disk2, i) == if i == c {
        v
    } else {
        block_id_of(m, disk, i)
    } by {
        if i >= INDIRECT1_BOUND {
            lemma_group(i);
            let a = (i - INDIRECT1_BOUND) / 128;
            let r = (i - INDIRECT1_BOUND) % 128;
            assert(a < a0 || (a == a0 && r <= b0)) by (nonlinear_arith)
                requires
                    i == INDIRECT1_BOUND + 128 * a + r,
                    0 <= r < 128,
                    0 <= b0 < 128,
                    i <= INDIRECT1_BOUND + 128 * a0 + b0,
            ;
            if a == a0 {
                lemma_u32_splice(b, 4 * b0, v, 4 * r);
                if i == c {
                    assert(r == b0);
                }
            } else {
                assert(i != c);
            }
        }
    }
}

/// The state of `increase_size` after mapping `c` data blocks: the blocks in use,
/// followed by the `pending` index blocks already set in the inode, are the old
/// blocks followed by the first `pos` new blocks; and only index blocks changed on disk.
pub open spec fn grow_state(
    m: InodeModel,
    disk: Seq<Seq<u8>>,
    c: nat,
    pending: Seq<u32>,
    pos: int,
    m0: InodeModel,
    disk0: Seq<Seq<u8>>,
    new_blocks: Seq<u32>,
) -> bool {
    let dold = data_blocks_of(m0.size);
    let full = block_list(m0, disk0, dold) + new_blocks;
    &&& m.direct.len() == INODE_DIRECT_COUNT
    &&& disk.len() == disk0.len()
    &&& total_blocks_of(dold) <= total_blocks_of(c)
    &&& pos == total_blocks_of(c) - total_blocks_of(dold) + pending.len()
    &&& 0 <= pos <= new_blocks.len()
    &&& block_list(m, disk, c) + pending == full.subrange(0, total_blocks_of(dold) + pos)
    &&& forall|blk: int|
        0 <= blk < disk0.len() && !is_index_block(m, disk, c, blk) ==> #[trigger] disk[blk] == disk0[blk]
}

/// Adding data blocks keeps the index blocks already in use, so an unchanged block
/// stays covered by the frame.
proof fn lemma_frame_step(
    m: InodeModel,
    disk: Seq<Seq<u8>>,
    c: nat,
    m2: InodeModel,
    disk2: Seq<Seq<u8>>,
    c2: nat,
    disk0: Seq<Seq<u8>>,
    w: int,
)
    requires
        c <= c2,
        disk.len() == disk0.len(),
        disk2.len() == disk0.len(),
        forall|i: int| 0 <= i < c ==> #[trigger] index_blocks_at(m2, disk2, i) == index_blocks_at(m, disk, i),
        forall|blk: int|
            0 <= blk < disk0.len() && !is_index_block(m, disk, c, blk) ==> #[trigger] disk[blk] == disk0[blk],
        forall|blk: int| 0 <= blk < disk0.len() && blk != w ==> #[trigger] disk2[blk] == disk[blk],
        w < 0 || is_index_block(m2, disk2, c2, w),
    ensures
        forall|blk: int|
            0 <= blk < disk0.len() && !is_index_block(m2, disk2, c2, blk) ==> #[trigger] disk2[blk]
                == disk0[blk],
{
    assert forall|blk: int|
        0 <= blk < disk0.len() && !is_index_block(m2, disk2, c2, blk) implies #[trigger] disk2[blk]
        == disk0[blk] by {
        if is_index_block(m, disk, c, blk) {
            let (i, k) = choose|i: int, k: int|
                0 <= i < c && 0 <= k < index_blocks_at(m, disk, i).len() && #[trigger] index_blocks_at(
                    m,
                    disk,
                    i,
                )[k] as int == blk;
            assert(index_blocks_at(m2, disk2, i)[k] as int == blk);
        }
    }
}

/// Once every data block is mapped and nothing is pending, the blocks in use are the
/// old ones followed by the new ones, and the inode is consistent.
proof fn lemma_grow_done(
    m: InodeModel,
    disk: Seq<Seq<u8>>,
    d: nat,
    pos: int,
    m0: InodeModel,
    disk0: Seq<Seq<u8>>,
    nb: Seq<u32>,
)
    requires
        grow_state(m, disk, d, seq![], pos, m0, disk0, nb),
        nb.len() == total_blocks_of(d) - total_blocks_of(data_blocks_of(m0.size)),
        block_list(m0, disk0, data_blocks_of(m0.size)).len() == total_blocks_of(data_blocks_of(m0.size)),
        (block_list(m0, disk0, data_blocks_of(m0.size)) + nb).no_duplicates(),
        forall|j: int|
            0 <= j < (block_list(m0, disk0, data_blocks_of(m0.size)) + nb).len() ==> (#[trigger] (
            block_list(m0, disk0, data_blocks_of(m0.size)) + nb)[j] as int) < disk0.len(),
        data_blocks_of(m.size) == d,
        d <= INDIRECT2_BOUND,
        m.size as int + BLOCK_SZ <= u32::MAX,
    ensures
        block_list(m, disk, d) == block_list(m0, disk0, data_blocks_of(m0.size)) + nb,
        inode_wf(m, disk),
{
    let full = block_list(m0, disk0, data_blocks_of(m0.size)) + nb;
    assert(block_list(m, disk, d) + seq![] =~= block_list(m, disk, d));
    assert(full.subrange(0, full.len() as int) =~= full);
}

/// The entries of the grown list are entries of the old list followed by the new blocks.
proof fn lemma_grow_elem(
    m: InodeModel,
    disk: Seq<Seq<u8>>,
    c: nat,
    pend: Seq<u32>,
    pos: int,
    m0: InodeModel,
    disk0: Seq<Seq<u8>>,
    nb: Seq<u32>,
    k: int,
)
    requires
        grow_state(m, disk, c, pend, pos, m0, disk0, nb),
        0 <= k < block_list(m, disk, c).len() + pend.len(),
    ensures
        (block_list(m, disk, c) + pend)[k] == (block_list(m0, disk0, data_blocks_of(m0.size)) + nb)[k],
{
    let full = block_list(m0, disk0, data_blocks_of(m0.size)) + nb;
    lemma_list_len(m0, disk0, data_blocks_of(m0.size));
    let n = total_blocks_of(data_blocks_of(m0.size)) + pos;
    assert(n <= full.len());
    assert(full.subrange(0, n).len() == n);
    assert((block_list(m, disk, c) + pend).len() == n);
    assert(k < n);
    assert(full.subrange(0, n)[k] == full[k]);
}

impl DiskInode {
    /// Grows the file to `new_size` bytes, using `new_blocks` (fresh blocks, in
    /// order) for the data blocks and index blocks it now needs.
    ///
    /// Afterwards the blocks in use are the old ones followed by `new_blocks`, and
    /// the only disk blocks that changed are index blocks of the file.
    #[verifier::rlimit(100)]
    #[verifier::spinoff_prover]
    pub fn increase_size<D: BlockDevice>(
        &mut self,
        new_size: u32,
        new_blocks: Vec<u32>,
        cache: &mut BlockCacheManager<D>,
    )
        requires
            old(cache).wf(),
            inode_wf(old(self)@, old(cache)@),
            old(self).size <= new_size,
            new_size as int + BLOCK_SZ <= u32::MAX,
            data_blocks_of(new_size) <= INDIRECT2_BOUND,
            new_blocks@.len() == total_blocks_of(data_blocks_of(new_size)) - total_blocks_of(
                data_blocks_of(old(self).size),
            ),
            (block_list(old(self)@, old(cache)@, data_blocks_of(old(self).size))
                + new_blocks@).no_duplicates(),
            forall|k: int| 0 <= k < new_blocks@.len() ==> (#[trigger] new_blocks@[k] as int) < old(cache)@.len(),
        ensures
            final(cache).wf(),
            final(cache)@.len() == old(cache)@.len(),
            final(self).size == new_size,
            final(self).type_ == old(self).type_,
            block_list(final(self)@, final(cache)@, data_blocks_of(new_size)) == block_list(
                old(self)@,
                old(cache)@,
                data_blocks_of(old(self).size),
            ) + new_blocks@,
            inode_wf(final(self)@, final(cache)@),
            forall|blk: int|
                0 <= blk < old(cache)@.len() && !is_index_block(
                    final(self)@,
                    final(cache)@,
                    data_blocks_of(new_size),
                    blk,
                ) ==> #[trigger] final(cache)@[blk] == old(cache)@[blk],
            data_blocks_of(new_size) <= INODE_DIRECT_COUNT ==> final(self).indirect1 == old(self).indirect1,
            data_blocks_of(new_size) <= INDIRECT1_BOUND ==> final(self).indirect2 == old(self).indirect2,
    {
        let ghost m0 = self@;
        let ghost disk0 = cache@;
        let ghost dold = data_blocks_of(self.size);
        let ghost dnew = data_blocks_of(new_size);
        let ghost nb = new_blocks@;
        let ghost full = block_list(m0, disk0, dold) + nb;
        proof {
            lemma_list_len(m0, disk0, dold);
            lemma_total_monotone(m0, disk0, dold, dnew);
            assert forall|j: int| 0 <= j < full.len() implies (#[trigger] full[j] as int) < disk0.len() by {
                if j >= block_list(m0, disk0, dold).len() {
                    assert(full[j] == nb[j - block_list(m0, disk0, dold).len()]);
                }
            }
        }
        let mut current_blocks = self.data_blocks();
        self.size = new_size;
        let mut total_blocks = self.data_blocks();
        let mut pos: usize = 0;
        proof {
            lemma_list_agree(self@, cache@, m0, disk0, dold);
            assert(full.subrange(0, total_blocks_of(dold) as int) =~= block_list(m0, disk0, dold));
            assert(block_list(self@, cache@, dold) + Seq::<u32>::empty() =~= block_list(self@, cache@, dold));
        }
        // direct blocks
        let direct_end = if total_blocks < INODE_DIRECT_COUNT as u32 {
            total_blocks
        } else {
            INODE_DIRECT_COUNT as u32
        };
        while current_blocks < direct_end
            invariant
                self.indirect1 == old(self).indirect1,
                self.indirect2 == old(self).indirect2,
                cache.wf(),
                m0 == old(self)@,
                disk0 == old(cache)@,
                dold == data_blocks_of(m0.size),
                dnew == data_blocks_of(new_size),
                nb == new_blocks@,
                full == block_list(m0, disk0, dold) + nb,
                block_list(m0, disk0, dold).len() == total_blocks_of(dold),
                full.no_duplicates(),
                forall|j: int| 0 <= j < full.len() ==> (#[trigger] full[j] as int) < disk0.len(),
                nb.len() == total_blocks_of(dnew) - total_blocks_of(dold),
                self.size == new_size,
                self.type_ == old(self).type_,
                total_blocks == dnew,
                dnew <= INDIRECT2_BOUND,
                direct_end <= INODE_DIRECT_COUNT,
                direct_end <= total_blocks,
                dold <= current_blocks,
                current_blocks <= dnew,
                current_blocks < direct_end ==> current_blocks < INODE_DIRECT_COUNT,
                current_blocks >= direct_end ==> current_blocks == dold || current_blocks == direct_end,
                grow_state(self@, cache@, current_blocks as nat, seq![], pos as int, m0, disk0, nb),
            decreases direct_end - current_blocks,
        {
            let ghost m = self@;
            let ghost c = current_blocks as nat;
            proof {
                lemma_total_step(m, cache@, c);
                lemma_total_monotone(m, cache@, c + 1, dnew);
            }
            self.direct[current_blocks as usize] = new_blocks[pos];
            proof {
                lemma_list_agree(self@, cache@, m, cache@, c);
                assert(block_list(self@, cache@, c + 1) == block_list(self@, cache@, c) + seq![nb[pos as int]]);
                assert(full.subrange(0, total_blocks_of(dold) + pos + 1) =~= full.subrange(
                    0,
                    total_blocks_of(dold) + pos,
                ) + seq![nb[pos as int]]);
                lemma_frame_step(m, cache@, c, self@, cache@, c + 1, disk0, -1);
                assert(block_list(self@, cache@, c + 1) + seq![] =~= block_list(self@, cache@, c + 1));
            }
            pos = pos + 1;
            current_blocks = current_blocks + 1;
        }
        let ghost list0 = block_list(m0, disk0, dold);
        if total_blocks > INODE_DIRECT_COUNT as u32 {
            if current_blocks == INODE_DIRECT_COUNT as u32 {
                let ghost m = self@;
                self.indirect1 = new_blocks[pos];
                proof {
                    lemma_list_agree(self@, cache@, m, cache@, 28);
                    lemma_total_monotone(m, cache@, 29, dnew);
                    lemma_total_step(m, cache@, 28);
                    assert(full.subrange(0, total_blocks_of(dold) + pos + 1) =~= full.subrange(
                        0,
                        total_blocks_of(dold) + pos,
                    ) + seq![nb[pos as int]]);
                    lemma_frame_step(m, cache@, 28, self@, cache@, 28, disk0, -1);
                    assert(block_list(m, cache@, 28) + seq![] =~= block_list(m, cache@, 28));
                }
                pos = pos + 1;
            }
            current_blocks -= INODE_DIRECT_COUNT as u32;
            total_blocks -= INODE_DIRECT_COUNT as u32;
        } else {
            proof {
                lemma_grow_done(self@, cache@, dnew, pos as int, m0, disk0, nb);
            }
            return ;
        }
        // indirect1 entries
        let ind1_end = if total_blocks < INODE_INDIRECT1_COUNT as u32 {
            total_blocks
        } else {
            INODE_INDIRECT1_COUNT as u32
        };
        while current_blocks < ind1_end
            invariant
                self.indirect2 == old(self).indirect2,
                cache.wf(),
                m0 == old(self)@,
                disk0 == old(cache)@,
                dold == data_blocks_of(m0.size),
                dnew == data_blocks_of(new_size),
                nb == new_blocks@,
                list0 == block_list(m0, disk0, dold),
                full == list0 + nb,
                list0.len() == total_blocks_of(dold),
                full.no_duplicates(),
                forall|j: int| 0 <= j < full.len() ==> (#[trigger] full[j] as int) < disk0.len(),
                nb.len() == total_blocks_of(dnew) - total_blocks_of(dold),
                self.size == new_size,
                self.type_ == old(self).type_,
                total_blocks + DIRECT_BOUND == dnew,
                dnew <= INDIRECT2_BOUND,
                ind1_end <= INODE_INDIRECT1_COUNT,
                1 <= ind1_end <= total_blocks,
                dold <= current_blocks + DIRECT_BOUND,
                current_blocks + DIRECT_BOUND <= dnew,
                current_blocks >= ind1_end ==> current_blocks + DIRECT_BOUND == dold || current_blocks
                    == ind1_end,
                grow_state(
                    self@,
                    cache@,
                    (current_blocks + DIRECT_BOUND) as nat,
                    if current_blocks == 0 {
                        seq![self.indirect1]
                    } else {
                        seq![]
                    },
                    pos as int,
                    m0,
                    disk0,
                    nb,
                ),
            decreases ind1_end - current_blocks,
        {
            let ghost m = self@;
            let ghost disk = cache@;
            let ghost c = (current_blocks + DIRECT_BOUND) as nat;
            let ghost pend = if current_blocks == 0 {
                seq![self.indirect1]
            } else {
                seq![]
            };
            proof {
                cache.lemma_wf();
                lemma_total_step(m, disk, c);
                lemma_total_monotone(m, disk, c + 1, dnew);
                lemma_list_len(m, disk, c);
                if c == DIRECT_BOUND {
                    lemma_grow_elem(m, disk, c, pend, pos as int, m0, disk0, nb, total_blocks_of(c) as int);
                } else {
                    lemma_list_at(m, disk, c, DIRECT_BOUND as nat);
                    assert(index_blocks_at(m, disk, DIRECT_BOUND as int)[0] == m.indirect1);
                    lemma_grow_elem(m, disk, c, pend, pos as int, m0, disk0, nb, DIRECT_BOUND as int);
                }
            }
            let v = new_blocks[pos];
            cache.write_u32(self.indirect1 as usize, 4 * current_blocks as usize, v);
            proof {
                lemma_write_indirect1(m, disk, c as int, v);
                lemma_list_agree(m, cache@, m, disk, c);
                assert(block_list(m, cache@, c + 1) == block_list(m, cache@, c) + index_blocks_at(
                    m,
                    cache@,
                    c as int,
                ) + seq![v]);
                assert(full.subrange(0, total_blocks_of(dold) + pos + 1) =~= full.subrange(
                    0,
                    total_blocks_of(dold) + pos,
                ) + seq![nb[pos as int]]);
                assert(index_blocks_at(m, cache@, DIRECT_BOUND as int)[0] == m.indirect1);
                lemma_frame_step(m, disk, c, m, cache@, c + 1, disk0, m.indirect1 as int);
                assert(block_list(m, cache@, c + 1) + seq![] =~= block_list(m, cache@, c + 1));
            }
            pos = pos + 1;
            current_blocks = current_blocks + 1;
        }
        if total_blocks > INODE_INDIRECT1_COUNT as u32 {
            if current_blocks == INODE_INDIRECT1_COUNT as u32 {
                let ghost m = self@;
                proof {
                    lemma_list_len(m, cache@, INDIRECT1_BOUND as nat);
                }
                self.indirect2 = new_blocks[pos];
                proof {
                    lemma_list_agree(self@, cache@, m, cache@, INDIRECT1_BOUND as nat);
                    lemma_total_monotone(m, cache@, (INDIRECT1_BOUND + 1) as nat, dnew);
                    lemma_total_step(m, cache@, INDIRECT1_BOUND as nat);
                    assert(full.subrange(0, total_blocks_of(dold) + pos + 1) =~= full.subrange(
                        0,
                        total_blocks_of(dold) + pos,
                    ) + seq![nb[pos as int]]);
                    lemma_frame_step(
                        m,
                        cache@,
                        INDIRECT1_BOUND as nat,
                        self@,
                        cache@,
                        INDIRECT1_BOUND as nat,
                        disk0,
                        -1,
                    );
                    assert(block_list(m, cache@, INDIRECT1_BOUND as nat) + seq![] =~= block_list(
                        m,
                        cache@,
                        INDIRECT1_BOUND as nat,
                    ));
                }
                pos = pos + 1;
            }
            current_blocks -= INODE_INDIRECT1_COUNT as u32;
            total_blocks -= INODE_INDIRECT1_COUNT as u32;
        } else {
            proof {
                lemma_grow_done(self@, cache@, dnew, pos as int, m0, disk0, nb);
            }
            return ;
        }
        // doubly indirect: fill (a0, b0) up to (a1, b1)
        let mut a0 = current_blocks as usize / INODE_INDIRECT1_COUNT;
        let mut b0 = current_blocks as usize % INODE_INDIRECT1_COUNT;
        let a1 = total_blocks as usize / INODE_INDIRECT1_COUNT;
        let b1 = total_blocks as usize % INODE_INDIRECT1_COUNT;
        proof {
            lemma_group((current_blocks + INDIRECT1_BOUND) as int);
            lemma_group((total_blocks + INDIRECT1_BOUND) as int);
        }
        while (a0 < a1) || (a0 == a1 && b0 < b1)
            invariant
                cache.wf(),
                m0 == old(self)@,
                disk0 == old(cache)@,
                dold == data_blocks_of(m0.size),
                dnew == data_blocks_of(new_size),
                nb == new_blocks@,
                list0 == block_list(m0, disk0, dold),
                full == list0 + nb,
                list0.len() == total_blocks_of(dold),
                full.no_duplicates(),
                forall|j: int| 0 <= j < full.len() ==> (#[trigger] full[j] as int) < disk0.len(),
                nb.len() == total_blocks_of(dnew) - total_blocks_of(dold),
                self.size == new_size,
                self.type_ == old(self).type_,
                dnew == INDIRECT1_BOUND + 128 * a1 + b1,
                b1 < 128,
                b0 < 128,
                dnew <= INDIRECT2_BOUND,
                dold <= INDIRECT1_BOUND + 128 * a0 + b0,
                INDIRECT1_BOUND + 128 * a0 + b0 <= dnew,
                grow_state(
                    self@,
                    cache@,
                    (INDIRECT1_BOUND + 128 * a0 + b0) as nat,
                    if a0 == 0 && b0 == 0 {
                        seq![self.indirect2]
                    } else {
                        seq![]
                    },
                    pos as int,
                    m0,
                    disk0,
                    nb,
                ),
            decreases 128 * a1 + b1 - (128 * a0 + b0),
        {
            let ghost m = self@;
            let ghost disk = cache@;
            let ghost c = (INDIRECT1_BOUND + 128 * a0 + b0) as nat;
            let ghost pend = if a0 == 0 && b0 == 0 {
                seq![self.indirect2]
            } else {
                seq![]
            };
            let ghost plen = block_list(m, disk, c).len() + pend.len();
            proof {
                cache.lemma_wf();
                assert(a0 < 128) by (nonlinear_arith)
                    requires
                        INDIRECT1_BOUND + 128 * a0 + b0 < INDIRECT2_BOUND,
                ;
                lemma_total_step(m, disk, c);
                lemma_total_monotone(m, disk, c + 1, dnew);
                lemma_list_len(m, disk, c);
                lemma_data_pos(a0 as int, b0 as int);
                // the indirect block sits at position DIRECT_BOUND
                lemma_list_at(m, disk, c, DIRECT_BOUND as nat);
                assert(index_blocks_at(m, disk, DIRECT_BOUND as int)[0] == m.indirect1);
                lemma_grow_elem(m, disk, c, pend, pos as int, m0, disk0, nb, DIRECT_BOUND as int);
                // the doubly indirect block sits at position 157
                if c == INDIRECT1_BOUND {
                    lemma_grow_elem(m, disk, c, pend, pos as int, m0, disk0, nb, 157);
                } else {
                    lemma_list_at(m, disk, c, INDIRECT1_BOUND as nat);
                    assert(index_blocks_at(m, disk, INDIRECT1_BOUND as int)[0] == m.indirect2);
                    lemma_grow_elem(m, disk, c, pend, pos as int, m0, disk0, nb, 157);
                }
                // the index blocks of earlier groups sit at positions 158 + 129 * a
                assert forall|a: int| 0 <= a < a0 || (a == a0 && b0 > 0) implies {
                    &&& (block_list(m, disk, c) + pend)[158 + 129 * a] == #[trigger] sub_index(m, disk, a)
                    &&& 158 + 129 * a < plen
                } by {
                    let g = (INDIRECT1_BOUND + 128 * a) as nat;
                    lemma_list_at(m, disk, c, g);
                    lemma_sub_pos(a);
                    if a == 0 {
                        assert(index_blocks_at(m, disk, g as int)[1] == sub_index(m, disk, 0));
                    } else {
                        lemma_group_of(a, 0);
                        assert(index_blocks_at(m, disk, g as int)[0] == sub_index(m, disk, a));
                    }
                }
            }
            if b0 == 0 {
                let ghost pos0 = pos as int;
                proof {
                    assert forall|a: int| 0 <= a < a0 implies #[trigger] sub_index(m, disk, a) != m.indirect2
                        && (sub_index(m, disk, a) as int) < disk.len() by {
                        lemma_grow_elem(m, disk, c, pend, pos as int, m0, disk0, nb, 158 + 129 * a);
                    }
                }
                let s_new = new_blocks[pos];
                cache.write_u32(self.indirect2 as usize, 4 * a0, s_new);
                let ghost disk1 = cache@;
                proof {
                    lemma_write_indirect2(m, disk, a0 as int, s_new);
                    lemma_list_agree(m, disk1, m, disk, c);
                    assert(is_index_block(m, disk1, c + 1, m.indirect2 as int)) by {
                        assert(index_blocks_at(m, disk1, INDIRECT1_BOUND as int)[0] == m.indirect2);
                    }
                    lemma_frame_step(m, disk, c, m, disk1, c + 1, disk0, m.indirect2 as int);
                }
                pos = pos + 1;
                let sub = cache.read_u32(self.indirect2 as usize, 4 * a0);
                let v = new_blocks[pos];
                proof {
                    assert(sub == s_new);
                    assert(full[total_blocks_of(dold) + pos0] == s_new);
                    assert forall|a: int| 0 <= a < a0 implies #[trigger] sub_index(m, disk1, a) != s_new
                        && (sub_index(m, disk1, a) as int) < disk1.len() by {
                        lemma_grow_elem(m, disk, c, pend, pos0, m0, disk0, nb, 158 + 129 * a);
                    }
                }
                cache.write_u32(sub as usize, 4 * b0, v);
                proof {
                    lemma_write_sub(m, disk1, a0 as int, b0 as int, v);
                    lemma_list_agree(m, cache@, m, disk, c);
                    assert(index_blocks_at(m, cache@, c as int) == pend + seq![s_new]) by {
                        if a0 > 0 {
                            lemma_group_of(a0 as int, 0);
                        }
                    }
                    assert(block_list(m, cache@, c + 1) == block_list(m, cache@, c) + index_blocks_at(
                        m,
                        cache@,
                        c as int,
                    ) + seq![v]);
                    assert(full.subrange(0, total_blocks_of(dold) + pos + 1) =~= full.subrange(
                        0,
                        total_blocks_of(dold) + pos0,
                    ) + seq![s_new, v]);
                    assert(block_list(m, cache@, c + 1) =~= block_list(m, disk, c) + pend + seq![s_new, v]);
                    assert(is_index_block(m, cache@, c + 1, s_new as int)) by {
                        if a0 == 0 {
                            assert(index_blocks_at(m, cache@, c as int)[1] == s_new);
                        } else {
                            assert(index_blocks_at(m, cache@, c as int)[0] == s_new);
                        }
                    }
                    lemma_frame_step(m, disk1, c + 1, m, cache@, c + 1, disk0, s_new as int);
                    assert(block_list(m, cache@, c + 1) + seq![] =~= block_list(m, cache@, c + 1));
                }
                pos = pos + 1;
            } else {
                let sub = cache.read_u32(self.indirect2 as usize, 4 * a0);
                let v = new_blocks[pos];
                proof {
                    lemma_grow_elem(m, disk, c, pend, pos as int, m0, disk0, nb, 158 + 129 * a0);
                    assert forall|a: int| 0 <= a < a0 implies #[trigger] sub_index(m, disk, a) != sub
                        && (sub_index(m, disk, a) as int) < disk.len() by {
                        lemma_grow_elem(m, disk, c, pend, pos as int, m0, disk0, nb, 158 + 129 * a);
                    }
                }
                cache.write_u32(sub as usize, 4 * b0, v);
                proof {
                    lemma_write_sub(m, disk, a0 as int, b0 as int, v);
                    lemma_list_agree(m, cache@, m, disk, c);
                    assert(index_blocks_at(m, cache@, c as int) == Seq::<u32>::empty()) by {
                        lemma_group_of(a0 as int, b0 as int);
                    }
                    assert(block_list(m, cache@, c + 1) == block_list(m, cache@, c) + index_blocks_at(
                        m,
                        cache@,
                        c as int,
                    ) + seq![v]);
                    assert(full.subrange(0, total_blocks_of(dold) + pos + 1) =~= full.subrange(
                        0,
                        total_blocks_of(dold) + pos,
                    ) + seq![v]);
                    assert(block_list(m, cache@, c + 1) =~= block_list(m, disk, c) + pend + seq![v]);
                    assert(is_index_block(m, cache@, c + 1, sub as int)) by {
                        let g = INDIRECT1_BOUND + 128 * a0;
                        if a0 == 0 {
                            assert(index_blocks_at(m, cache@, g as int)[1] == sub);
                        } else {
                            lemma_group_of(a0 as int, 0);
                            assert(index_blocks_at(m, cache@, g as int)[0] == sub);
                        }
                    }
                    lemma_frame_step(m, disk, c, m, cache@, c + 1, disk0, sub as int);
                    assert(block_list(m, cache@, c + 1) + seq![] =~= block_list(m, cache@, c + 1));
                }
                pos = pos + 1;
            }
            b0 = b0 + 1;
            if b0 == INODE_INDIRECT1_COUNT {
                b0 = 0;
                a0 = a0 + 1;
            }
        }
        proof {
            lemma_grow_done(self@, cache@, dnew, pos as int, m0, disk0, nb);
        }

    }
}

impl DiskInode {
    /// Shrinks the file to zero bytes and returns every block it used, data and
    /// index blocks, in the order they were allocated.
    ///
    /// The pointers to the freed blocks are zeroed in the inode; the disk is not changed.
    #[verifier::rlimit(50)]
    pub fn clear_size<D: BlockDevice>(&mut self, cache: &mut BlockCacheManager<D>) -> (v: Vec<u32>)
        requires
            old(cache).wf(),
            inode_wf(old(self)@, old(cache)@),
        ensures
            final(cache).wf(),
            final(cache)@ == old(cache)@,
            v@ == block_list(old(self)@, old(cache)@, data_blocks_of(old(self).size)),
            v@.len() == total_blocks_of(data_blocks_of(old(self).size)),
            final(self).size == 0,
            final(self).type_ == old(self).type_,
            forall|i: int|
                0 <= i < INODE_DIRECT_COUNT ==> #[trigger] final(self).direct@[i] == if i < data_blocks_of(
                    old(self).size,
                ) {
                    0
                } else {
                    old(self).direct@[i]
                },
            final(self).indirect1 == if data_blocks_of(old(self).size) > DIRECT_BOUND {
                0
            } else {
                old(self).indirect1
            },
            final(self).indirect2 == if data_blocks_of(old(self).size) > INDIRECT1_BOUND {
                0
            } else {
                old(self).indirect2
            },
    {
        let ghost m0 = self@;
        let ghost disk = cache@;
        let ghost d = data_blocks_of(self.size);
        proof {
            lemma_list_len(m0, disk, d);
        }
        let mut v: Vec<u32> = Vec::new();
        let mut data_blocks = self.data_blocks() as usize;
        self.size = 0;
        let mut current_blocks: usize = 0;
        let direct_end = if data_blocks < INODE_DIRECT_COUNT {
            data_blocks
        } else {
            INODE_DIRECT_COUNT
        };
        while current_blocks < direct_end
            invariant
                m0 == old(self)@,
                d == data_blocks_of(m0.size),
                data_blocks == d,
                direct_end <= INODE_DIRECT_COUNT,
                direct_end <= d,
                current_blocks <= direct_end,
                self.size == 0,
                self.type_ == old(self).type_,
                self.indirect1 == m0.indirect1,
                self.indirect2 == m0.indirect2,
                self.direct@.len() == INODE_DIRECT_COUNT,
                forall|i: int|
                    0 <= i < INODE_DIRECT_COUNT ==> #[trigger] self.direct@[i] == if i < current_blocks {
                        0
                    } else {
                        m0.direct[i]
                    },
                v@ == block_list(m0, disk, current_blocks as nat),
            decreases direct_end - current_blocks,
        {
            v.push(self.direct[current_blocks]);
            self.direct[current_blocks] = 0;
            current_blocks += 1;
        }
        if data_blocks > INODE_DIRECT_COUNT {
            v.push(self.indirect1);
            data_blocks -= INODE_DIRECT_COUNT;
            current_blocks = 0;
        } else {
            return v;
        }
        proof {
            lemma_wf_path(m0, disk, DIRECT_BOUND as int);
        }
        let ind1_end = if data_blocks < INODE_INDIRECT1_COUNT {
            data_blocks
        } else {
            INODE_INDIRECT1_COUNT
        };
        while current_blocks < ind1_end
            invariant
                cache.wf(),
                cache@ == disk,
                disk == old(cache)@,
                m0 == old(self)@,
                d == data_blocks_of(m0.size),
                data_blocks + DIRECT_BOUND == d,
                ind1_end <= INODE_INDIRECT1_COUNT,
                ind1_end <= data_blocks,
                current_blocks <= ind1_end,
                (m0.indirect1 as int) < disk.len(),
                self.indirect1 == m0.indirect1,
                self.indirect2 == m0.indirect2,
                v@ == block_list(m0, disk, (current_blocks + DIRECT_BOUND) as nat) + if current_blocks
                    == 0 {
                    seq![m0.indirect1]
                } else {
                    seq![]
                },
            decreases ind1_end - current_blocks,
        {
            let e = cache.read_u32(self.indirect1 as usize, 4 * current_blocks);
            v.push(e);
            current_blocks += 1;
        }
        self.indirect1 = 0;
        if data_blocks > INODE_INDIRECT1_COUNT {
            v.push(self.indirect2);
            data_blocks -= INODE_INDIRECT1_COUNT;
        } else {
            return v;
        }
        proof {
            lemma_wf_path(m0, disk, INDIRECT1_BOUND as int);
        }
        let a1 = data_blocks / INODE_INDIRECT1_COUNT;
        let b1 = data_blocks % INODE_INDIRECT1_COUNT;
        proof {
            lemma_group(d as int);
        }
        let mut a: usize = 0;
        while a < a1
            invariant
                cache.wf(),
                cache@ == disk,
                disk == old(cache)@,
                m0 == old(self)@,
                inode_wf(m0, disk),
                d == data_blocks_of(m0.size),
                d == INDIRECT1_BOUND + 128 * a1 + b1,
                b1 < 128,
                a <= a1,
                (m0.indirect2 as int) < disk.len(),
                self.indirect2 == m0.indirect2,
                v@ == block_list(m0, disk, (INDIRECT1_BOUND + 128 * a) as nat) + if a == 0 {
                    seq![m0.indirect2]
                } else {
                    seq![]
                },
            decreases a1 - a,
        {
            let ghost g = (INDIRECT1_BOUND + 128 * a) as int;
            proof {
                assert(a < 128) by (nonlinear_arith)
                    requires
                        a < a1,
                        INDIRECT1_BOUND + 128 * a1 + b1 <= INDIRECT2_BOUND,
                ;
                lemma_group_of(a as int, 0);
                lemma_wf_path(m0, disk, g);
            }
            let entry = cache.read_u32(self.indirect2 as usize, 4 * a);
            v.push(entry);
            let mut b: usize = 0;
            while b < INODE_INDIRECT1_COUNT
                invariant
                    cache.wf(),
                    cache@ == disk,
                    disk == old(cache)@,
                    m0 == old(self)@,
                    inode_wf(m0, disk),
                    d == data_blocks_of(m0.size),
                    d == INDIRECT1_BOUND + 128 * a1 + b1,
                    a < a1,
                    a < 128,
                    g == INDIRECT1_BOUND + 128 * a,
                    b <= INODE_INDIRECT1_COUNT,
                    entry == sub_index(m0, disk, a as int),
                    (entry as int) < disk.len(),
                    v@ == block_list(m0, disk, (g + b) as nat) + if b == 0 {
                        index_blocks_at(m0, disk, g)
                    } else {
                        seq![]
                    },
                decreases INODE_INDIRECT1_COUNT - b,
            {
                let x = cache.read_u32(entry as usize, 4 * b);
                proof {
                    lemma_group_of(a as int, b as int);
                    assert(x == block_id_of(m0, disk, g + b));
                }
                v.push(x);
                b += 1;
            }
            a += 1;
        }
        if b1 > 0 {
            let ghost g = (INDIRECT1_BOUND + 128 * a1) as int;
            proof {
                assert(a1 < 128) by (nonlinear_arith)
                    requires
                        INDIRECT1_BOUND + 128 * a1 + b1 <= INDIRECT2_BOUND,
                        b1 > 0,
                ;
                lemma_group_of(a1 as int, 0);
                lemma_wf_path(m0, disk, g);
            }
            let entry = cache.read_u32(self.indirect2 as usize, 4 * a1);
            v.push(entry);
            let mut b: usize = 0;
            while b < b1
                invariant
                    cache.wf(),
                    cache@ == disk,
                    disk == old(cache)@,
                    m0 == old(self)@,
                    inode_wf(m0, disk),
                    d == data_blocks_of(m0.size),
                    d == INDIRECT1_BOUND + 128 * a1 + b1,
                    b1 < 128,
                    a1 < 128,
                    g == INDIRECT1_BOUND + 128 * a1,
                    b <= b1,
                    entry == sub_index(m0, disk, a1 as int),
                    (entry as int) < disk.len(),
                    v@ == block_list(m0, disk, (g + b) as nat) + if b == 0 {
                        index_blocks_at(m0, disk, g)
                    } else {
                        seq![]
                    },
                decreases b1 - b,
            {
                let x = cache.read_u32(entry as usize, 4 * b);
                proof {
                    lemma_group_of(a1 as int, b as int);
                    assert(x == block_id_of(m0, disk, g + b));
                }
                v.push(x);
                b += 1;
            }
        }
        self.indirect2 = 0;
        v
    }
}


/// Index of the first zero byte of `s` at or after `i`, or `s.len()` if there is none.
pub open spec fn first_zero(s: Seq<u8>, i: nat) -> nat
    decreases s.len() - i,
{
    if i >= s.len() {
        s.len()
    } else if s[i as int] == 0 {
        i
    } else {
        first_zero(s, i + 1)
    }
}

/// The name held by the raw bytes of a directory entry: the bytes of its name
/// field before the first zero.
pub open spec fn dirent_name(raw: Seq<u8>) -> Seq<u8> {
    raw.subrange(0, first_zero(raw.subrange(0, NAME_LENGTH_LIMIT + 1), 0) as int)
}

/// The inode number held by the raw bytes of a directory entry.
pub open spec fn dirent_inode(raw: Seq<u8>) -> u32 {
    u32_at(raw, NAME_LENGTH_LIMIT + 1)
}

/// The name field of a directory entry ends with a zero byte and what comes
/// before it is UTF-8.
pub open spec fn dirent_name_readable(raw: Seq<u8>) -> bool {
    &&& first_zero(raw.subrange(0, NAME_LENGTH_LIMIT + 1), 0) < NAME_LENGTH_LIMIT + 1
    &&& valid_utf8(dirent_name(raw))
}

/// The first zero found scanning from `i` is `k` when `s[k]` is zero and nothing
/// in `[i, k)` is.
pub proof fn lemma_first_zero(s: Seq<u8>, i: nat, k: nat)
    requires
        i <= k < s.len(),
        s[k as int] == 0,
        forall|j: int| i <= j < k ==> s[j] != 0,
    ensures
        first_zero(s, i) == k,
    decreases k - i,
{
    if i < k {
        lemma_first_zero(s, i + 1, k);
    }
}

/// `core::str::from_utf8`: the bytes read as a string slice, when they are valid UTF-8.
#[verifier::external_body]
fn str_from_utf8(v: &[u8]) -> (r: Option<&str>)
    ensures
        r is Some <==> valid_utf8(v@),
        r matches Some(s) ==> s.spec_bytes() == v@,
{
    match core::str::from_utf8(v) {
        Ok(s) => Some(s),
        Err(_) => None,
    }
}

/// A directory entry, `DIRENT_SZ` bytes as it lies on disk: a zero-padded name
/// field of `NAME_LENGTH_LIMIT + 1` bytes, then the little-endian inode number.
pub struct DirEntry {
    bytes: [u8; 32],
}

impl DirEntry {
    /// The `DIRENT_SZ` bytes of the entry.
    pub closed spec fn raw(&self) -> Seq<u8> {
        self.bytes@
    }

    /// The entry's bytes have the right length.
    pub proof fn lemma_raw_len(&self)
        ensures
            self.raw().len() == DIRENT_SZ,
    {
    }

    /// An entry with an empty name and inode number 0: all its bytes are zero.
    pub fn empty() -> (r: Self)
        ensures
            r.raw() == Seq::new((NAME_LENGTH_LIMIT + 1) as nat, |i: int| 0u8) + u32_bytes(0),
            dirent_name(r.raw()) == Seq::<u8>::empty(),
            dirent_inode(r.raw()) == 0,
            dirent_name_readable(r.raw()),
    {
        let mut bytes = [0u8; 32];
        let le = u32_to_le_bytes(0u32);
        bytes[28] = le[0];
        bytes[29] = le[1];
        bytes[30] = le[2];
        bytes[31] = le[3];
        let r = DirEntry { bytes };
        proof {
            lemma_auto_spec_u32_to_from_le_bytes();
            assert(r.raw() =~= Seq::new((NAME_LENGTH_LIMIT + 1) as nat, |i: int| 0u8) + u32_bytes(0));
            lemma_first_zero(r.raw().subrange(0, 28), 0, 0);
            assert(dirent_name(r.raw()) =~= Seq::<u8>::empty());
            assert(r.raw().subrange(28, 32) =~= u32_bytes(0));
        }
        r
    }

    /// An entry for `name` and `inode_number`; the name must fit in `NAME_LENGTH_LIMIT` bytes.
    ///
    /// The name field holds the bytes of `name` then zeros, so a name without a
    /// zero byte reads back whole.
    pub fn new(name: &str, inode_number: u32) -> (r: Self)
        requires
            name.spec_bytes().len() <= NAME_LENGTH_LIMIT,
        ensures
            r.raw().len() == DIRENT_SZ,
            r.raw().subrange(0, name.spec_bytes().len() as int) == name.spec_bytes(),
            forall|i: int| name.spec_bytes().len() <= i < NAME_LENGTH_LIMIT + 1 ==> r.raw()[i] == 0,
            dirent_inode(r.raw()) == inode_number,
            !name.spec_bytes().contains(0u8) ==> dirent_name(r.raw()) == name.spec_bytes(),
            !name.spec_bytes().contains(0u8) ==> dirent_name_readable(r.raw()),
    {
        let src = name.as_bytes();
        let n = src.len();
        let mut bytes = [0u8; 32];
        let mut i: usize = 0;
        while i < n
            invariant
                n == src@.len(),
                n <= NAME_LENGTH_LIMIT,
                i <= n,
                bytes@.len() == DIRENT_SZ,
                forall|j: int| 0 <= j < i ==> bytes@[j] == src@[j],
                forall|j: int| i <= j < DIRENT_SZ ==> bytes@[j] == 0,
            decreases n - i,
        {
            bytes[i] = src[i];
            i += 1;
        }
        let le = u32_to_le_bytes(inode_number);
        bytes[28] = le[0];
        bytes[29] = le[1];
        bytes[30] = le[2];
        bytes[31] = le[3];
        let r = DirEntry { bytes };
        proof {
            let raw = r.raw();
            let nb = name.spec_bytes();
            assert(raw.subrange(0, n as int) =~= nb);
            if !nb.contains(0u8) {
                assert forall|j: int| 0 <= j < n implies raw.subrange(0, 28)[j] != 0 by {
                    assert(raw[j] == nb[j]);
                    if nb[j] == 0 {
                        assert(nb.contains(0u8));
                    }
                }
                lemma_first_zero(raw.subrange(0, 28), 0, n as nat);
                assert(dirent_name(raw) =~= nb);
                vstd::utf8::encode_utf8_valid_utf8(name@);
            }
            lemma_auto_spec_u32_to_from_le_bytes();
            assert(raw.subrange(28, 32) =~= u32_bytes(inode_number));
        }
        r
    }

    /// The entry's bytes, as they are written to disk.
    pub fn as_bytes(&self) -> (r: &[u8])
        ensures
            r@ == self.raw(),
    {
        self.bytes.as_slice()
    }

    /// The entry's bytes, to be filled in place (by a read from disk).
    pub fn as_bytes_mut(&mut self) -> (r: &mut [u8])
        ensures
            r@ == old(self).raw(),
            final(self).raw() == final(r)@,
    {
        &mut self.bytes
    }

    /// The entry's name: the bytes of its name field before the first zero.
    pub fn name(&self) -> (r: &str)
        requires
            dirent_name_readable(self.raw()),
        ensures
            r.spec_bytes() == dirent_name(self.raw()),
    {
        let ghost s = self.raw().subrange(0, 28);
        let mut len: usize = 0;
        while self.bytes[len] != 0
            invariant
                self.bytes@.len() == DIRENT_SZ,
                s == self.bytes@.subrange(0, 28),
                first_zero(s, 0) < 28,
                len <= first_zero(s, 0),
                forall|j: int| 0 <= j < len ==> s[j] != 0,
            decreases first_zero(s, 0) - len,
        {
            proof {
                if len == first_zero(s, 0) {
                    lemma_first_zero_is_zero(s, 0);
                }
            }
            len += 1;
        }
        proof {
            lemma_first_zero(s, 0, len as nat);
        }
        let all = self.bytes.as_slice();
        let v = str_from_utf8(&all[0..len]);
        assert(all@.subrange(0, len as int) == dirent_name(self.raw()));
        v.unwrap()
    }

    /// The entry's inode number.
    pub fn inode_number(&self) -> (r: u32)
        ensures
            r == dirent_inode(self.raw()),
    {
        let all = self.bytes.as_slice();
        u32_from_le_bytes(&all[28..32])
    }
}

/// The first zero found from `i`, when it is inside `s`, is a zero.
pub proof fn lemma_first_zero_is_zero(s: Seq<u8>, i: nat)
    requires
        first_zero(s, i) < s.len(),
    ensures
        s[first_zero(s, i) as int] == 0,
        i <= first_zero(s, i),
    decreases s.len() - i,
{
    if i < s.len() && s[i as int] != 0 {
        lemma_first_zero_is_zero(s, i + 1);
    }
}

} // verus!
