//! Inodes as the users of the file system see them: files and the root
//! directory, with lookup, listing, creation, clearing, reads and writes.
//!
//! An [`Inode`] only records where its disk inode lies; every operation works
//! on the file system it is given.
use super::bitmap::BLOCK_BITS;
use super::block_cache::{block_cache_sync_all, splice};
use super::block_dev::{BlockDevice, BLOCK_SZ};
use super::efs::{inode_pos, lemma_count_free_some, zero_block, EasyFileSystem, INODES_PER_BLOCK};
use super::layout::{
    DiskInodeType,
    block_id_of, block_list, data_blocks_of, file_bytes, inode_bytes, inode_model_of, inode_wf,
    io_len, is_index_block, lemma_byte_in_file, lemma_data_block_distinct, lemma_inode_frame,
    lemma_inode_roundtrip, lemma_list_at, lemma_list_len, lemma_list_prefix, lemma_total_monotone,
    lemma_used_in_list, total_blocks_of, dirent_inode, dirent_name, dirent_name_readable, DirEntry,
    DiskInode, InodeModel, DIRENT_SZ, DISK_INODE_SZ, INDIRECT2_BOUND, INODE_DIRECT_COUNT,
};
use vstd::string::StringSliceAdditionalSpecFns;
use vstd::utf8::encode_utf8;
use vstd::prelude::*;

verus! {

/// The disk inode stored at byte `offset` of block `block_id` of `disk`.
pub open spec fn disk_inode_at(disk: Seq<Seq<u8>>, block_id: int, offset: int) -> InodeModel {
    inode_model_of(disk[block_id].subrange(offset, offset + DISK_INODE_SZ))
}

/// Every block inode `m` uses lies in the data area and is marked used in the
/// data bitmap, and the inode is consistent with the disk.
pub open spec fn inode_ok<D: BlockDevice>(fs: &EasyFileSystem<D>, m: InodeModel) -> bool {
    let list = block_list(m, fs@, data_blocks_of(m.size));
    &&& inode_wf(m, fs@)
    &&& forall|k: int|
        0 <= k < list.len() ==> {
            let b = #[trigger] list[k] as int;
            &&& fs.data_area_start() <= b
            &&& b - fs.data_area_start() < fs.data_bits().len()
            &&& fs.data_bits()[b - fs.data_area_start()]
        }
}

/// `fs2` has the layout of `fs1` and differs from it at most in blocks before
/// the data bitmap.
pub open spec fn same_from_bitmap<D: BlockDevice>(fs1: &EasyFileSystem<D>, fs2: &EasyFileSystem<D>) -> bool {
    &&& fs2.same_layout(fs1)
    &&& fs2@.len() == fs1@.len()
    &&& forall|k: int| fs1.data_bitmap.start() <= k < fs1@.len() ==> #[trigger] fs2@[k] == fs1@[k]
}

/// Changing only blocks before the data bitmap keeps the data bitmap, and keeps
/// every inode that was fine fine, with the same contents.
pub proof fn lemma_ok_frame<D: BlockDevice>(fs1: &EasyFileSystem<D>, fs2: &EasyFileSystem<D>, m: InodeModel)
    requires
        fs1.wf(),
        same_from_bitmap(fs1, fs2),
        inode_ok(fs1, m),
    ensures
        fs2.data_bits() == fs1.data_bits(),
        inode_ok(fs2, m),
        block_list(m, fs2@, data_blocks_of(m.size)) == block_list(m, fs1@, data_blocks_of(m.size)),
        file_bytes(m, fs2@) == file_bytes(m, fs1@),
{
    lemma_data_bits_frame(fs1, fs2);
    fs1.data_bitmap.lemma_nonneg();
    let list = block_list(m, fs1@, data_blocks_of(m.size));
    assert forall|k: int| 0 <= k < list.len() implies fs2@[list[k] as int] == fs1@[list[k] as int] by {
        assert(fs1.data_area_start() <= list[k]);
    }
    lemma_inode_frame(m, fs1@, fs2@);
}

/// The data bitmap reads the same on two disks that agree on its blocks.
pub proof fn lemma_data_bits_frame<D: BlockDevice>(fs1: &EasyFileSystem<D>, fs2: &EasyFileSystem<D>)
    requires
        fs1.wf(),
        fs2.same_layout(fs1),
        fs2@.len() == fs1@.len(),
        forall|k: int|
            fs1.data_bitmap.start() <= k < fs1.data_area_start() ==> #[trigger] fs2@[k] == fs1@[k],
    ensures
        fs2.data_bits() == fs1.data_bits(),
{
    fs1.data_bitmap.lemma_nonneg();
    let n = fs1.data_bitmap.num_blocks();
    assert forall|b: int| 0 <= b < fs1.data_bits().len() implies fs2.data_bits()[b] == fs1.data_bits()[b] by {
        assert(b / 4096 < n) by (nonlinear_arith)
            requires
                0 <= b < n * 4096,
        ;
        assert(fs2@[fs1.data_bitmap.start() + b / 4096] == fs1@[fs1.data_bitmap.start() + b / 4096]);
    }
    assert(fs2.data_bits() =~= fs1.data_bits());
}

/// Number of blocks, data and index blocks together, a file gains growing from
/// `old_size` to `new_size` bytes.
pub open spec fn blocks_to_grow(old_size: u32, new_size: u32) -> int {
    total_blocks_of(data_blocks_of(new_size)) - total_blocks_of(data_blocks_of(old_size))
}

/// Going from `fs1` to `fs2` changed no block before the data bitmap and no
/// data block in use in `fs1` other than those of `mine`, and freed nothing.
pub open spec fn touches_only<D: BlockDevice>(
    fs1: &EasyFileSystem<D>,
    fs2: &EasyFileSystem<D>,
    mine: Seq<u32>,
) -> bool {
    &&& fs2.same_layout(fs1)
    &&& fs2@.len() == fs1@.len()
    &&& forall|k: int| 0 <= k < fs1.data_bitmap.start() ==> #[trigger] fs2@[k] == fs1@[k]
    &&& forall|k: int|
        fs1.data_area_start() <= k < fs1@.len() && k - fs1.data_area_start() < fs1.data_bits().len()
            && fs1.data_bits()[k - fs1.data_area_start()] && !mine.contains(k as u32)
            ==> #[trigger] fs2@[k] == fs1@[k]
    &&& forall|b: int| 0 <= b < fs1.data_bits().len() && fs1.data_bits()[b] ==> #[trigger] fs2.data_bits()[b]
}

/// Entry `i` of a directory whose contents are `bytes`.
pub open spec fn dir_entry(bytes: Seq<u8>, i: int) -> Seq<u8> {
    bytes.subrange(DIRENT_SZ * i, DIRENT_SZ * i + DIRENT_SZ)
}

/// Number of entries of a directory of `size` bytes.
pub open spec fn dir_count(size: u32) -> int {
    size as int / DIRENT_SZ as int
}

/// Index of the first entry among `i..n` named `name`, or `n` if there is none.
pub open spec fn first_match(bytes: Seq<u8>, name: Seq<u8>, i: int, n: int) -> int
    decreases n - i,
{
    if i >= n {
        n
    } else if dirent_name(dir_entry(bytes, i)) == name {
        i
    } else {
        first_match(bytes, name, i + 1, n)
    }
}

/// The inode number of the first of the `n` entries named `name`, if any.
pub open spec fn dir_lookup(bytes: Seq<u8>, n: int, name: Seq<u8>) -> Option<u32> {
    let i = first_match(bytes, name, 0, n);
    if 0 <= i < n {
        Some(dirent_inode(dir_entry(bytes, i)))
    } else {
        None
    }
}

/// The names of entries `lo..hi` can be read.
pub open spec fn names_readable(bytes: Seq<u8>, lo: int, hi: int) -> bool {
    forall|i: int| lo <= i < hi ==> #[trigger] dirent_name_readable(dir_entry(bytes, i))
}

/// The entries a lookup of `name` reads: up to the match, or all `n` of them.
pub open spec fn lookup_reads(bytes: Seq<u8>, n: int, name: Seq<u8>) -> int {
    let i = first_match(bytes, name, 0, n);
    if i < n {
        i + 1
    } else {
        n
    }
}

/// What `first_match` finds from `i` it finds from 0 when no entry before `i` matches.
pub proof fn lemma_first_match_step(bytes: Seq<u8>, name: Seq<u8>, i: int, n: int)
    requires
        0 <= i <= n,
    ensures
        i <= first_match(bytes, name, i, n) <= n,
        first_match(bytes, name, i, n) < n ==> dirent_name(
            dir_entry(bytes, first_match(bytes, name, i, n)),
        ) == name,
        forall|j: int| i <= j < first_match(bytes, name, i, n) ==> dirent_name(#[trigger] dir_entry(bytes, j)) != name,
    decreases n - i,
{
    if i < n && dirent_name(dir_entry(bytes, i)) != name {
        lemma_first_match_step(bytes, name, i + 1, n);
    }
}

/// Appending an entry for a name that no entry has makes a lookup of that name find it.
pub proof fn lemma_lookup_appended(bytes: Seq<u8>, bytes2: Seq<u8>, n: int, name: Seq<u8>)
    requires
        0 <= n,
        DIRENT_SZ * (n + 1) <= bytes2.len(),
        forall|i: int| 0 <= i < n ==> #[trigger] dir_entry(bytes2, i) == dir_entry(bytes, i),
        dir_lookup(bytes, n, name) is None,
        dirent_name(dir_entry(bytes2, n)) == name,
    ensures
        dir_lookup(bytes2, n + 1, name) == Some(dirent_inode(dir_entry(bytes2, n))),
{
    lemma_first_match_step(bytes, name, 0, n);
    lemma_first_match_step(bytes2, name, 0, n + 1);
    let k = first_match(bytes2, name, 0, n + 1);
    if k < n {
        assert(dir_entry(bytes2, k) == dir_entry(bytes, k));
        assert(first_match(bytes, name, 0, n) <= k);
    }
}

/// `a` and `b` hold the same bytes.
fn bytes_eq(a: &[u8], b: &[u8]) -> (r: bool)
    ensures
        r == (a@ == b@),
{
    if a.len() != b.len() {
        return false;
    }
    let mut i: usize = 0;
    while i < a.len()
        invariant
            a@.len() == b@.len(),
            i <= a@.len(),
            forall|j: int| 0 <= j < i ==> a@[j] == b@[j],
        decreases a@.len() - i,
    {
        if a[i] != b[i] {
            return false;
        }
        i += 1;
    }
    assert(a@ =~= b@);
    true
}

/// The inode of an empty regular file.
pub open spec fn empty_file() -> InodeModel {
    InodeModel {
        size: 0,
        direct: Seq::new(INODE_DIRECT_COUNT as nat, |i: int| 0u32),
        indirect1: 0,
        indirect2: 0,
        is_dir: false,
    }
}

/// Writing one inode slot of a block leaves another, disjoint, slot as it was.
proof fn lemma_slot_frame(b: Seq<u8>, off1: int, off2: int, bytes: Seq<u8>)
    requires
        b.len() == BLOCK_SZ,
        bytes.len() == DISK_INODE_SZ,
        0 <= off1,
        off1 + DISK_INODE_SZ <= BLOCK_SZ,
        0 <= off2,
        off2 + DISK_INODE_SZ <= BLOCK_SZ,
        off1 + DISK_INODE_SZ <= off2 || off2 + DISK_INODE_SZ <= off1,
    ensures
        splice(b, off2, bytes).subrange(off1, off1 + DISK_INODE_SZ) == b.subrange(off1, off1 + DISK_INODE_SZ),
{
    assert(splice(b, off2, bytes).subrange(off1, off1 + DISK_INODE_SZ) =~= b.subrange(off1, off1 + DISK_INODE_SZ));
}

/// Two distinct inodes occupy disjoint slots: different blocks, or offsets at
/// least a disk inode apart.
proof fn lemma_slots_disjoint(area: int, id1: int, id2: int)
    requires
        0 <= id1,
        0 <= id2,
        id1 != id2,
    ensures
        ({
            let (b1, o1) = inode_pos(area, id1);
            let (b2, o2) = inode_pos(area, id2);
            &&& 0 <= o1 && o1 + DISK_INODE_SZ <= BLOCK_SZ
            &&& 0 <= o2 && o2 + DISK_INODE_SZ <= BLOCK_SZ
            &&& b1 != b2 || o1 + DISK_INODE_SZ <= o2 || o2 + DISK_INODE_SZ <= o1
        }),
{
    assert(id1 % 4 < 4 && id2 % 4 < 4);
    if id1 / 4 == id2 / 4 {
        assert(id1 % 4 != id2 % 4) by {
            vstd::arithmetic::div_mod::lemma_fundamental_div_mod(id1, 4);
            vstd::arithmetic::div_mod::lemma_fundamental_div_mod(id2, 4);
        }
    }
}

/// An inode of the inode bitmap lies in the inode area.
pub proof fn lemma_inode_placed<D: BlockDevice>(fs: &EasyFileSystem<D>, id: int)
    requires
        fs.wf(),
        0 <= id < fs.inode_bits().len(),
    ensures
        fs.inode_area_start() <= inode_pos(fs.inode_area_start(), id).0 < fs.data_bitmap.start(),
        inode_pos(fs.inode_area_start(), id).0 <= u32::MAX,
        0 <= inode_pos(fs.inode_area_start(), id).1,
        inode_pos(fs.inode_area_start(), id).1 + DISK_INODE_SZ <= BLOCK_SZ,
{
    fs.inode_bitmap.lemma_nonneg();
    fs.data_bitmap.lemma_nonneg();
    let n = fs.inode_bitmap.num_blocks();
    assert(id / 4 < n * 1024) by (nonlinear_arith)
        requires
            0 <= id < n * 4096,
    ;
    assert(id % 4 < 4);
    assert((id % 4) * 128 + 128 <= 512) by (nonlinear_arith)
        requires
            0 <= id % 4 < 4,
    ;
}

/// What creating a file named `name` in directory `dir` leaves behind when no
/// entry had that name: `inode` is inode `id`, the lowest inode that was free,
/// now allocated and an empty file, and the directory has one more entry, for
/// `name` and `id`, after its old ones.
pub open spec fn created<D: BlockDevice>(
    dir: &Inode,
    fs1: &EasyFileSystem<D>,
    fs2: &EasyFileSystem<D>,
    name: Seq<u8>,
    inode: Inode,
    id: int,
) -> bool {
    let m = dir.disk_inode(fs1);
    let bytes = file_bytes(m, fs1@);
    let n = dir_count(m.size);
    let m2 = dir.disk_inode(fs2);
    let bytes2 = file_bytes(m2, fs2@);
    &&& inode.is_inode(fs2, id)
    &&& !fs1.inode_bits()[id]
    &&& (forall|c: int| 0 <= c < id ==> #[trigger] fs1.inode_bits()[c])
    &&& fs2.inode_bits() == fs1.inode_bits().update(id, true)
    &&& inode.disk_inode(fs2) == empty_file()
    &&& m2.is_dir
    &&& inode_ok(fs2, m2)
    &&& dir_count(m2.size) == n + 1
    &&& (forall|i: int| 0 <= i < n ==> #[trigger] dir_entry(bytes2, i) == dir_entry(bytes, i))
    &&& dirent_inode(dir_entry(bytes2, n)) == id
    &&& dir_entry(bytes2, n).subrange(0, name.len() as int) == name
    &&& (!name.contains(0u8) ==> dir_lookup(bytes2, n + 1, name) == Some(id as u32))
    &&& fs2.device_blocks() == fs2@
    &&& fs2.same_layout(fs1)
    &&& fs2@.len() == fs1@.len()
    &&& fs2.free_data_blocks() + blocks_to_grow(m.size, m2.size) == fs1.free_data_blocks()
    &&& forall|k: int|
        0 <= k < fs1.data_bitmap.start() && k != dir.block() && k != inode.block() && k != 1 + id
            / BLOCK_BITS as int ==> #[trigger] fs2@[k] == fs1@[k]
    &&& forall|k: int, j: int|
        (k == dir.block() || k == inode.block()) && 0 <= j < BLOCK_SZ && !(k == dir.block() && dir.offset() <= j
            < dir.offset() + DISK_INODE_SZ) && !(k == inode.block() && inode.offset() <= j < inode.offset()
            + DISK_INODE_SZ) ==> #[trigger] fs2@[k][j] == fs1@[k][j]
    &&& forall|k: int|
        fs1.data_area_start() <= k < fs1@.len() && k - fs1.data_area_start() < fs1.data_bits().len()
            && fs1.data_bits()[k - fs1.data_area_start()] && !block_list(m, fs1@, data_blocks_of(m.size)).contains(
            k as u32,
        ) ==> #[trigger] fs2@[k] == fs1@[k]
    &&& forall|b: int| 0 <= b < fs1.data_bits().len() && fs1.data_bits()[b] ==> #[trigger] fs2.data_bits()[b]
}

/// What writing `buf` at `offset` into `inode` leaves behind: the file ends at
/// the end of the write or later, holds `buf` at `offset` and its old bytes
/// elsewhere (bytes between its old end and `offset` excepted), is still fine,
/// and nothing else in use changed: no block before the data bitmap but the
/// inode's own, no used data block that is not the file's, no used bit.
pub open spec fn written<D: BlockDevice>(
    inode: &Inode,
    fs1: &EasyFileSystem<D>,
    fs2: &EasyFileSystem<D>,
    offset: int,
    buf: Seq<u8>,
) -> bool {
    let m = inode.disk_inode(fs1);
    let m2 = inode.disk_inode(fs2);
    let end = offset + buf.len();
    &&& m2.size == if end < m.size {
        m.size as int
    } else {
        end
    }
    &&& m2.is_dir == m.is_dir
    &&& inode_ok(fs2, m2)
    &&& forall|k: int|
        0 <= k < m2.size && !(m.size <= k < offset) ==> #[trigger] file_bytes(m2, fs2@)[k] == if offset
            <= k < end {
            buf[k - offset]
        } else {
            file_bytes(m, fs1@)[k]
        }
    &&& fs2.same_layout(fs1)
    &&& fs2@.len() == fs1@.len()
    &&& fs2@[inode.block()] == splice(fs1@[inode.block()], inode.offset(), inode_bytes(m2))
    &&& forall|k: int| 0 <= k < fs1.data_bitmap.start() && k != inode.block() ==> #[trigger] fs2@[k] == fs1@[k]
    &&& forall|k: int|
        fs1.data_area_start() <= k < fs1@.len() && k - fs1.data_area_start() < fs1.data_bits().len()
            && fs1.data_bits()[k - fs1.data_area_start()] && !block_list(
            m,
            fs1@,
            data_blocks_of(m.size),
        ).contains(k as u32) ==> #[trigger] fs2@[k] == fs1@[k]
    &&& forall|b: int| 0 <= b < fs1.data_bits().len() && fs1.data_bits()[b] ==> #[trigger] fs2.data_bits()[b]
    &&& fs2.free_data_blocks() + (if m.size <= end {
        blocks_to_grow(m.size, end as u32)
    } else {
        0
    }) == fs1.free_data_blocks()
}

/// A file or directory: where its disk inode lies.
pub struct Inode {
    block_id: usize,
    block_offset: usize,
}

impl Inode {
    /// The block holding the disk inode.
    pub closed spec fn block(&self) -> int {
        self.block_id as int
    }

    /// The byte offset of the disk inode in its block.
    pub closed spec fn offset(&self) -> int {
        self.block_offset as int
    }

    /// The disk inode lies in the inode area of `fs`, whole inside its block.
    pub open spec fn placed<D: BlockDevice>(&self, fs: &EasyFileSystem<D>) -> bool {
        &&& fs.inode_area_start() <= self.block() < fs.data_bitmap.start()
        &&& 0 <= self.offset()
        &&& self.offset() + DISK_INODE_SZ <= BLOCK_SZ
    }

    /// The inode is inode `id` of `fs`, and `id` is allocated.
    pub open spec fn is_inode<D: BlockDevice>(&self, fs: &EasyFileSystem<D>, id: int) -> bool {
        &&& 0 <= id < fs.inode_bits().len()
        &&& fs.inode_bits()[id]
        &&& self.block() == inode_pos(fs.inode_area_start(), id).0
        &&& self.offset() == inode_pos(fs.inode_area_start(), id).1
    }

    /// What a lookup of `name` in this directory finds in `fs`.
    pub open spec fn lookup<D: BlockDevice>(&self, fs: &EasyFileSystem<D>, name: Seq<u8>) -> Option<u32> {
        dir_lookup(file_bytes(self.disk_inode(fs), fs@), dir_count(self.disk_inode(fs).size), name)
    }

    /// The disk inode, as `fs` holds it.
    pub open spec fn disk_inode<D: BlockDevice>(&self, fs: &EasyFileSystem<D>) -> InodeModel {
        disk_inode_at(fs@, self.block(), self.offset())
    }

    /// The inode whose disk inode is at byte `block_offset` of block `block_id`.
    pub fn new(block_id: u32, block_offset: usize) -> (r: Self)
        ensures
            r.block() == block_id,
            r.offset() == block_offset,
    {
        Self { block_id: block_id as usize, block_offset }
    }

    /// Reads the disk inode.
    fn read_disk_inode<D: BlockDevice>(&self, fs: &mut EasyFileSystem<D>) -> (r: DiskInode)
        requires
            old(fs).wf(),
            self.placed(old(fs)),
        ensures
            final(fs).wf(),
            final(fs)@ == old(fs)@,
            final(fs).same_layout(old(fs)),
            r@ == self.disk_inode(old(fs)),
    {
        proof {
            fs.cache.lemma_wf();
            fs.data_bitmap.lemma_nonneg();
        }
        let raw = fs.cache.read(self.block_id, self.block_offset, DISK_INODE_SZ);
        DiskInode::decode(raw.as_slice())
    }

    /// Writes `disk_inode` in place of the disk inode.
    fn modify_disk_inode<D: BlockDevice>(&self, fs: &mut EasyFileSystem<D>, disk_inode: &DiskInode)
        requires
            old(fs).wf(),
            self.placed(old(fs)),
        ensures
            final(fs).wf(),
            final(fs).same_layout(old(fs)),
            final(fs)@ == old(fs)@.update(
                self.block(),
                splice(old(fs)@[self.block()], self.offset(), inode_bytes(disk_inode@)),
            ),
            self.disk_inode(final(fs)) == disk_inode@,
            same_from_bitmap(old(fs), final(fs)),
    {
        proof {
            fs.cache.lemma_wf();
            fs.data_bitmap.lemma_nonneg();
            lemma_inode_roundtrip(disk_inode@);
        }
        let bytes = disk_inode.encode();
        fs.cache.modify(self.block_id, self.block_offset, bytes.as_slice());
        proof {
            assert(fs@[self.block()].subrange(self.offset(), self.offset() + DISK_INODE_SZ) =~= inode_bytes(
                disk_inode@,
            ));
        }
    }

    /// Grows the file described by `disk_inode` to `new_size` bytes, when that is
    /// larger than its size, taking the blocks it needs from the data bitmap.
    ///
    /// The bytes the file had are kept; no block in use by anything else changes.
    #[verifier::rlimit(50)]
    fn increase_size<D: BlockDevice>(&self, new_size: u32, disk_inode: &mut DiskInode, fs: &mut EasyFileSystem<D>)
        requires
            old(fs).wf(),
            inode_ok(old(fs), old(disk_inode)@),
            new_size as int + BLOCK_SZ <= u32::MAX,
            data_blocks_of(new_size) <= INDIRECT2_BOUND,
            old(disk_inode).size <= new_size ==> blocks_to_grow(old(disk_inode).size, new_size)
                <= old(fs).free_data_blocks(),
        ensures
            final(fs).wf(),
            final(disk_inode).size == if new_size < old(disk_inode).size {
                old(disk_inode).size
            } else {
                new_size
            },
            final(disk_inode).type_ == old(disk_inode).type_,
            inode_ok(final(fs), final(disk_inode)@),
            file_bytes(final(disk_inode)@, final(fs)@).subrange(0, old(disk_inode).size as int)
                == file_bytes(old(disk_inode)@, old(fs)@),
            touches_only(
                old(fs),
                final(fs),
                block_list(old(disk_inode)@, old(fs)@, data_blocks_of(old(disk_inode).size)),
            ),
            new_size < old(disk_inode).size ==> final(fs)@ == old(fs)@ && *final(disk_inode)
                == *old(disk_inode),
            old(disk_inode).size <= new_size ==> final(fs).free_data_blocks() + blocks_to_grow(
                old(disk_inode).size,
                new_size,
            ) == old(fs).free_data_blocks(),
            forall|k: int|
                0 <= k < block_list(final(disk_inode)@, final(fs)@, data_blocks_of(final(disk_inode).size)).len()
                    ==> {
                    let b = #[trigger] block_list(final(disk_inode)@, final(fs)@, data_blocks_of(final(disk_inode).size))[k];
                    ||| block_list(old(disk_inode)@, old(fs)@, data_blocks_of(old(disk_inode).size)).contains(b)
                    ||| !old(fs).data_bits()[b - old(fs).data_area_start()]
                },
    {
        if new_size < disk_inode.size {
            return;
        }
        let ghost m0 = disk_inode@;
        let ghost disk0 = fs@;
        let ghost bits0 = fs.data_bits();
        let ghost st = fs.data_area_start();
        let ghost d0 = data_blocks_of(m0.size);
        let ghost list0 = block_list(m0, disk0, d0);
        let blocks_needed = disk_inode.blocks_num_needed(new_size);
        let mut v: Vec<u32> = Vec::new();
        let mut i: u32 = 0;
        proof {
            fs.data_bitmap.lemma_nonneg();
        }
        while i < blocks_needed
            invariant
                fs.wf(),
                fs.same_layout(old(fs)),
                fs@.len() == disk0.len(),
                st == fs.data_area_start(),
                bits0 == old(fs).data_bits(),
                fs.data_bits().len() == bits0.len(),
                i <= blocks_needed,
                blocks_needed <= old(fs).free_data_blocks(),
                v@.len() == i,
                fs.free_data_blocks() + i == old(fs).free_data_blocks(),
                forall|k: int|
                    0 <= k < fs.data_bitmap.start() || st <= k < disk0.len() ==> #[trigger] fs@[k]
                        == disk0[k],
                forall|j: int|
                    0 <= j < v@.len() ==> {
                        let b = #[trigger] v@[j] as int;
                        &&& st <= b < disk0.len()
                        &&& b - st < bits0.len()
                        &&& !bits0[b - st]
                        &&& fs.data_bits()[b - st]
                    },
                v@.no_duplicates(),
                forall|b: int| 0 <= b < bits0.len() && bits0[b] ==> #[trigger] fs.data_bits()[b],
            decreases blocks_needed - i,
        {
            let ghost before = fs@;
            let ghost bits_before = fs.data_bits();
            proof {
                fs.data_bitmap.lemma_nonneg();
                let t = fs.usable_data_bits();
                let x = lemma_count_free_some(t);
                assert(fs.data_bits()[x] == t[x]);
            }
            let b = fs.alloc_data();
            proof {
                assert forall|k: int| 0 <= k < fs.data_bitmap.start() || st <= k < disk0.len() implies #[trigger] fs@[k]
                    == disk0[k] by {
                    assert(b - st < fs.data_bitmap.num_blocks() * 4096);
                    assert((b - st) / 4096 < fs.data_bitmap.num_blocks()) by (nonlinear_arith)
                        requires
                            0 <= b - st < fs.data_bitmap.num_blocks() * 4096,
                    ;
                    assert(fs@[k] == before[k]);
                }
                if bits0[b - st] {
                    assert(bits_before[b - st]);
                }
                assert forall|j: int| 0 <= j < v@.len() implies v@[j] != b by {
                    assert(bits_before[v@[j] - st]);
                }
            }
            v.push(b);
            proof {
                assert forall|j: int| 0 <= j < v@.len() implies {
                    let bb = #[trigger] v@[j] as int;
                    &&& st <= bb < disk0.len()
                    &&& bb - st < bits0.len()
                    &&& !bits0[bb - st]
                    &&& fs.data_bits()[bb - st]
                } by {
                    if j < v@.len() - 1 {
                        assert(bits_before[v@[j] - st]);
                    }
                }
                assert forall|x: int, y: int| 0 <= x < v@.len() && 0 <= y < v@.len() && x != y implies v@[x] != v@[y] by {
                    if x < v@.len() - 1 && y < v@.len() - 1 {
                    }
                }
            }
            i = i + 1;
        }
        let ghost disk1 = fs@;
        proof {
            lemma_list_len(m0, disk0, d0);
            assert forall|k: int| 0 <= k < list0.len() implies disk1[list0[k] as int] == disk0[list0[k] as int] by {
                assert(st <= list0[k]);
            }
            lemma_inode_frame(m0, disk0, disk1);
            let full = list0 + v@;
            assert forall|x: int, y: int| 0 <= x < full.len() && 0 <= y < full.len() && x != y implies full[x] != full[y] by {
                if x < list0.len() && y >= list0.len() {
                    assert(bits0[list0[x] - st]);
                    assert(!bits0[v@[y - list0.len()] - st]);
                }
                if y < list0.len() && x >= list0.len() {
                    assert(bits0[list0[y] - st]);
                    assert(!bits0[v@[x - list0.len()] - st]);
                }
            }
            fs.cache.lemma_wf();
        }
        disk_inode.increase_size(new_size, v, &mut fs.cache);
        proof {
            let m1 = disk_inode@;
            let disk2 = fs@;
            let d1 = data_blocks_of(new_size);
            let list1 = block_list(m1, disk2, d1);
            assert(list1 == list0 + v@);
            // Only index blocks of the grown file changed, all of them in its list.
            assert forall|k: int| 0 <= k < disk1.len() && !list1.contains(k as u32) implies #[trigger] disk2[k] == disk1[k] by {
                if is_index_block(m1, disk2, d1, k) {
                    lemma_used_in_list(m1, disk2, d1, k);
                    let j = choose|j: int| 0 <= j < list1.len() && list1[j] as int == k;
                    assert(list1.contains(k as u32));
                }
            }
            // The data bitmap lies before the data area, so it did not change.
            assert forall|k: int| 0 <= k < st implies #[trigger] disk2[k] == disk1[k] by {
                if list1.contains(k as u32) {
                    let j = choose|j: int| 0 <= j < list1.len() && list1[j] == k as u32;
                    if j < list0.len() {
                        assert(st <= list0[j]);
                    } else {
                        assert(st <= v@[j - list0.len()]);
                    }
                }
            }
            // The bytes the file had are where they were.
            lemma_list_len(m0, disk0, d0);
            assert forall|k: int| 0 <= k < m0.size implies #[trigger] file_bytes(m1, disk2)[k] == file_bytes(m0, disk0)[k] by {
                lemma_byte_in_file(k, m0.size);
                let j = k / BLOCK_SZ as int;
                lemma_total_monotone(m0, disk0, d0, d1);
                lemma_list_at(m1, disk2, d1, j as nat);
                lemma_list_at(m0, disk1, d0, j as nat);
                lemma_total_monotone(m0, disk0, (j + 1) as nat, d0);
                let b = block_id_of(m1, disk2, j);
                assert(b == block_id_of(m0, disk1, j));
                assert(b == block_id_of(m0, disk0, j));
                if is_index_block(m1, disk2, d1, b as int) {
                    let (i2, k2) = choose|i2: int, k2: int|
                        0 <= i2 < d1 && 0 <= k2 < super::layout::index_blocks_at(m1, disk2, i2).len()
                            && #[trigger] super::layout::index_blocks_at(m1, disk2, i2)[k2] as int == b as int;
                    lemma_data_block_distinct(m1, disk2, i2 as nat, j as nat);
                }
                assert(disk2[b as int] == disk1[b as int]);
            }
            assert(file_bytes(m1, disk2).subrange(0, m0.size as int) =~= file_bytes(m0, disk0));
            assert forall|k: int| 0 <= k < list1.len() implies {
                let b = #[trigger] list1[k];
                ||| list0.contains(b)
                ||| !bits0[b - st]
            } by {
                if k < list0.len() {
                    assert(list0[k] == list1[k]);
                }
            }
            assert(fs.data_bits() =~= fs.data_bitmap.bits(disk1)) by {
                assert forall|b: int| 0 <= b < fs.data_bits().len() implies fs.data_bits()[b] == fs.data_bitmap.bits(disk1)[b] by {
                    assert((fs.data_bitmap.start() + b / 4096) < st) by (nonlinear_arith)
                        requires
                            0 <= b < fs.data_bitmap.num_blocks() * 4096,
                            st == fs.data_bitmap.start() + fs.data_bitmap.num_blocks(),
                    ;
                }
            }
        }
    }

    /// Reads file bytes from `offset` into `buf`, stopping at the end of the
    /// file, and returns how many bytes were read.
    pub fn read_at<D: BlockDevice>(&self, offset: usize, buf: &mut [u8], fs: &mut EasyFileSystem<D>) -> (r: usize)
        requires
            old(fs).wf(),
            self.placed(old(fs)),
            inode_wf(self.disk_inode(old(fs)), old(fs)@),
            offset + old(buf)@.len() <= usize::MAX,
        ensures
            final(fs).wf(),
            final(fs)@ == old(fs)@,
            final(fs).same_layout(old(fs)),
            r == io_len(offset as int, old(buf)@.len() as int, self.disk_inode(old(fs)).size as int),
            final(buf)@.len() == old(buf)@.len(),
            forall|k: int|
                0 <= k < final(buf)@.len() ==> #[trigger] final(buf)@[k] == if k < r {
                    file_bytes(self.disk_inode(old(fs)), old(fs)@)[offset + k]
                } else {
                    old(buf)@[k]
                },
    {
        let disk_inode = self.read_disk_inode(fs);
        disk_inode.read_at(offset, buf, &mut fs.cache)
    }

    /// Writes `buf` into the file from byte `offset`, growing the file first when
    /// it ends before `offset + buf.len()`, then writes everything back to the
    /// device. Returns the number of bytes written: all of `buf`.
    ///
    /// Afterwards the file holds `buf` at `offset` and its old bytes elsewhere
    /// (bytes between its old end and `offset`, if any, are whatever its new
    /// blocks held); no block in use by anything else changes.
    #[verifier::rlimit(50)]
    pub fn write_at<D: BlockDevice>(&self, offset: usize, buf: &[u8], fs: &mut EasyFileSystem<D>) -> (r: usize)
        requires
            old(fs).wf(),
            self.placed(old(fs)),
            inode_ok(old(fs), self.disk_inode(old(fs))),
            offset + buf@.len() + BLOCK_SZ <= u32::MAX,
            data_blocks_of((offset + buf@.len()) as u32) <= INDIRECT2_BOUND,
            self.disk_inode(old(fs)).size <= offset + buf@.len() ==> blocks_to_grow(
                self.disk_inode(old(fs)).size,
                (offset + buf@.len()) as u32,
            ) <= old(fs).free_data_blocks(),
        ensures
            final(fs).wf(),
            final(fs).device_blocks() == final(fs)@,
            r == buf@.len(),
            written(self, old(fs), final(fs), offset as int, buf@),
    {
        let ghost m = self.disk_inode(fs);
        let ghost disk0 = fs@;
        let ghost list0 = block_list(m, disk0, data_blocks_of(m.size));
        let ghost bits0 = fs.data_bits();
        let mut disk_inode = self.read_disk_inode(fs);
        self.increase_size((offset + buf.len()) as u32, &mut disk_inode, fs);
        let ghost fs_grown = *fs;
        let ghost m1 = disk_inode@;
        let ghost disk1 = fs@;
        let ghost list1 = block_list(m1, disk1, data_blocks_of(m1.size));
        proof {
            fs.cache.lemma_wf();
        }
        let size = disk_inode.write_at(offset, buf, &mut fs.cache);
        let ghost disk2 = fs@;
        proof {
            fs.data_bitmap.lemma_nonneg();
            assert(size == buf@.len());
            // Only data blocks of the file changed, and those lie in the data area.
            assert forall|k: int| 0 <= k < disk1.len() && !list1.contains(k as u32) implies #[trigger] disk2[k] == disk1[k] by {
                if super::layout::is_data_block(m1, disk1, data_blocks_of(m1.size), k) {
                    lemma_used_in_list(m1, disk1, data_blocks_of(m1.size), k);
                    let j = choose|j: int| 0 <= j < list1.len() && list1[j] as int == k;
                    assert(list1.contains(k as u32));
                }
            }
            assert forall|k: int| 0 <= k < fs.data_area_start() implies #[trigger] disk2[k] == disk1[k] by {
                if list1.contains(k as u32) {
                    let j = choose|j: int| 0 <= j < list1.len() && list1[j] == k as u32;
                    assert(fs.data_area_start() <= list1[j]);
                }
            }
            assert(fs.data_bits() =~= fs.data_bitmap.bits(disk1)) by {
                assert forall|b: int| 0 <= b < fs.data_bits().len() implies fs.data_bits()[b] == fs.data_bitmap.bits(disk1)[b] by {
                    assert((fs.data_bitmap.start() + b / 4096) < fs.data_area_start()) by (nonlinear_arith)
                        requires
                            0 <= b < fs.data_bitmap.num_blocks() * 4096,
                            fs.data_area_start() == fs.data_bitmap.start() + fs.data_bitmap.num_blocks(),
                    ;
                }
            }
            assert(inode_ok(fs, m1));
        }
        let ghost fs2 = *fs;
        proof {
            assert(fs2.usable_data_bits() =~= fs_grown.usable_data_bits());
        }
        self.modify_disk_inode(fs, &disk_inode);
        proof {
            lemma_ok_frame(&fs2, fs, m1);
            assert(fs.usable_data_bits() =~= fs2.usable_data_bits());
        }
        block_cache_sync_all(&mut fs.cache);
        proof {
            let m2 = self.disk_inode(fs);
            assert(m2 == m1);
            let end = offset + buf@.len();
            assert forall|k: int|
                0 <= k < m2.size && !(m.size <= k < offset) implies #[trigger] file_bytes(m2, fs@)[k]
                    == if offset <= k < end {
                    buf@[k - offset]
                } else {
                    file_bytes(m, disk0)[k]
                } by {
                assert(file_bytes(m1, disk2)[k] == file_bytes(m2, fs@)[k]);
                if !(offset <= k < end) {
                    assert(k < m.size);
                    assert(file_bytes(m1, disk1).subrange(0, m.size as int)[k] == file_bytes(m1, disk1)[k]);
                }
            }
            assert forall|k: int|
                disk0.len() > k && k >= fs.data_area_start() && k - fs.data_area_start() < bits0.len() && bits0[k - fs.data_area_start()]
                    && !list0.contains(k as u32) implies #[trigger] fs@[k] == disk0[k] by {
                assert(disk1[k] == disk0[k]);
                if list1.contains(k as u32) {
                    let j = choose|j: int| 0 <= j < list1.len() && list1[j] == k as u32;
                    assert(list1[j] == k as u32);
                }
                assert(disk2[k] == disk1[k]);
            }
        }
        size
    }

    /// The inode number of the first entry named `name` of the directory
    /// `disk_inode`, reading the entries in order.
    fn find_inode_id<D: BlockDevice>(&self, name: &str, disk_inode: &DiskInode, fs: &mut EasyFileSystem<D>) -> (r: Option<u32>)
        requires
            old(fs).wf(),
            disk_inode@.is_dir,
            inode_wf(disk_inode@, old(fs)@),
            names_readable(
                file_bytes(disk_inode@, old(fs)@),
                0,
                lookup_reads(file_bytes(disk_inode@, old(fs)@), dir_count(disk_inode.size), name.spec_bytes()),
            ),
        ensures
            final(fs).wf(),
            final(fs)@ == old(fs)@,
            final(fs).same_layout(old(fs)),
            r == dir_lookup(file_bytes(disk_inode@, old(fs)@), dir_count(disk_inode.size), name.spec_bytes()),
    {
        let ghost bytes = file_bytes(disk_inode@, fs@);
        let ghost target = name.spec_bytes();
        let file_count = (disk_inode.size as usize) / DIRENT_SZ;
        let ghost n = dir_count(disk_inode.size);
        proof {
            lemma_first_match_step(bytes, target, 0, n);
        }
        let mut dirent = DirEntry::empty();
        let mut i: usize = 0;
        while i < file_count
            invariant
                fs.wf(),
                fs@ == old(fs)@,
                fs.same_layout(old(fs)),
                bytes == file_bytes(disk_inode@, fs@),
                inode_wf(disk_inode@, fs@),
                file_count == n,
                n * DIRENT_SZ <= disk_inode.size,
                0 <= i <= n,
                target == name.spec_bytes(),
                n == dir_count(disk_inode.size),
                first_match(bytes, target, 0, n) == first_match(bytes, target, i as int, n),
                names_readable(bytes, 0, lookup_reads(bytes, n, target)),
            decreases file_count - i,
        {
            proof {
                lemma_first_match_step(bytes, target, i as int, n);
            }
            proof {
                dirent.lemma_raw_len();
                assert(DIRENT_SZ * i + DIRENT_SZ <= disk_inode.size) by (nonlinear_arith)
                    requires
                        i < file_count,
                        file_count * DIRENT_SZ <= disk_inode.size,
                ;
            }
            let buf = dirent.as_bytes_mut();
            let got = disk_inode.read_at(DIRENT_SZ * i, buf, &mut fs.cache);
            proof {
                assert(got == DIRENT_SZ);
                assert(dirent.raw() =~= dir_entry(bytes, i as int));
                assert(dirent_name_readable(dir_entry(bytes, i as int)));
            }
            let entry_name = dirent.name();
            let a = entry_name.as_bytes();
            let b = name.as_bytes();
            assert(a@ == dirent_name(dir_entry(bytes, i as int)));
            assert(b@ == target);
            if bytes_eq(a, b) {
                assert(first_match(bytes, target, i as int, n) == i);
                let ino = dirent.inode_number();
                assert(ino == dirent_inode(dir_entry(bytes, i as int)));
                assert(dir_lookup(bytes, n, target) == Some(ino));
                return Some(ino);
            }
            assert(first_match(bytes, target, i as int, n) == first_match(bytes, target, i + 1, n));
            i += 1;
        }
        None
    }

    /// The inode of the file named `name` in this directory, if there is one.
    pub fn find<D: BlockDevice>(&self, name: &str, fs: &mut EasyFileSystem<D>) -> (r: Option<Inode>)
        requires
            old(fs).wf(),
            self.placed(old(fs)),
            self.disk_inode(old(fs)).is_dir,
            inode_wf(self.disk_inode(old(fs)), old(fs)@),
            ({
                let bytes = file_bytes(self.disk_inode(old(fs)), old(fs)@);
                let n = dir_count(self.disk_inode(old(fs)).size);
                &&& names_readable(bytes, 0, lookup_reads(bytes, n, name.spec_bytes()))
                &&& dir_lookup(bytes, n, name.spec_bytes()) matches Some(id) ==> old(fs).inode_area_start()
                    + id as int / INODES_PER_BLOCK as int <= u32::MAX
            }),
        ensures
            final(fs).wf(),
            final(fs)@ == old(fs)@,
            final(fs).same_layout(old(fs)),
            ({
                let bytes = file_bytes(self.disk_inode(old(fs)), old(fs)@);
                let n = dir_count(self.disk_inode(old(fs)).size);
                match dir_lookup(bytes, n, name.spec_bytes()) {
                    Some(id) => r matches Some(inode) && inode.block() == super::efs::inode_pos(
                        old(fs).inode_area_start(),
                        id as int,
                    ).0 && inode.offset() == super::efs::inode_pos(old(fs).inode_area_start(), id as int).1,
                    None => r is None,
                }
            }),
    {
        let disk_inode = self.read_disk_inode(fs);
        match self.find_inode_id(name, &disk_inode, fs) {
            Some(inode_id) => {
                let (block_id, block_offset) = fs.get_disk_inode_pos(inode_id);
                Some(Self::new(block_id, block_offset))
            },
            None => None,
        }
    }

    /// The names of the entries of this directory, in order.
    pub fn ls<D: BlockDevice>(&self, fs: &mut EasyFileSystem<D>) -> (r: Vec<String>)
        requires
            old(fs).wf(),
            self.placed(old(fs)),
            inode_wf(self.disk_inode(old(fs)), old(fs)@),
            names_readable(
                file_bytes(self.disk_inode(old(fs)), old(fs)@),
                0,
                dir_count(self.disk_inode(old(fs)).size),
            ),
        ensures
            final(fs).wf(),
            final(fs)@ == old(fs)@,
            final(fs).same_layout(old(fs)),
            r@.len() == dir_count(self.disk_inode(old(fs)).size),
            forall|i: int|
                0 <= i < r@.len() ==> encode_utf8(#[trigger] r@[i]@) == dirent_name(
                    dir_entry(file_bytes(self.disk_inode(old(fs)), old(fs)@), i),
                ),
    {
        let disk_inode = self.read_disk_inode(fs);
        let ghost bytes = file_bytes(disk_inode@, fs@);
        let file_count = (disk_inode.size as usize) / DIRENT_SZ;
        let mut v: Vec<String> = Vec::new();
        let mut i: usize = 0;
        while i < file_count
            invariant
                fs.wf(),
                fs@ == old(fs)@,
                fs.same_layout(old(fs)),
                bytes == file_bytes(disk_inode@, fs@),
                inode_wf(disk_inode@, fs@),
                file_count == dir_count(disk_inode.size),
                file_count * DIRENT_SZ <= disk_inode.size,
                i <= file_count,
                v@.len() == i,
                names_readable(bytes, 0, file_count as int),
                forall|j: int| 0 <= j < i ==> encode_utf8(#[trigger] v@[j]@) == dirent_name(dir_entry(bytes, j)),
            decreases file_count - i,
        {
            let mut dirent = DirEntry::empty();
            proof {
                dirent.lemma_raw_len();
                assert(DIRENT_SZ * i + DIRENT_SZ <= disk_inode.size) by (nonlinear_arith)
                    requires
                        i < file_count,
                        file_count * DIRENT_SZ <= disk_inode.size,
                ;
            }
            let buf = dirent.as_bytes_mut();
            let got = disk_inode.read_at(i * DIRENT_SZ, buf, &mut fs.cache);
            proof {
                assert(got == DIRENT_SZ);
                assert(dirent.raw() =~= dir_entry(bytes, i as int));
                assert(dirent_name_readable(dir_entry(bytes, i as int)));
            }
            let entry_name = dirent.name();
            v.push(entry_name.to_owned());
            i += 1;
        }
        v
    }

    /// Creates an empty file named `name` in this directory and returns its
    /// inode, or returns `None` when the directory already has an entry of that name.
    ///
    /// The file gets the lowest free inode; its entry is appended to the
    /// directory; everything is written back to the device.
    #[verifier::rlimit(80)]
    pub fn create<D: BlockDevice>(&self, name: &str, fs: &mut EasyFileSystem<D>) -> (r: Option<Inode>)
        requires
            old(fs).wf(),
            exists|id: int| self.is_inode(old(fs), id),
            self.disk_inode(old(fs)).is_dir,
            inode_ok(old(fs), self.disk_inode(old(fs))),
            name.spec_bytes().len() <= super::layout::NAME_LENGTH_LIMIT,
            ({
                let m = self.disk_inode(old(fs));
                let bytes = file_bytes(m, old(fs)@);
                let n = dir_count(m.size);
                let new_size = (DIRENT_SZ * (n + 1)) as u32;
                &&& names_readable(bytes, 0, lookup_reads(bytes, n, name.spec_bytes()))
                &&& dir_lookup(bytes, n, name.spec_bytes()) is None ==> {
                    &&& old(fs).inode_bits().contains(false)
                    &&& DIRENT_SZ * (n + 1) + BLOCK_SZ <= u32::MAX
                    &&& data_blocks_of(new_size) <= INDIRECT2_BOUND
                    &&& blocks_to_grow(m.size, new_size) <= old(fs).free_data_blocks()
                }
            }),
        ensures
            final(fs).wf(),
            final(fs).same_layout(old(fs)),
            final(fs)@.len() == old(fs)@.len(),
            self.lookup(old(fs), name.spec_bytes()) is Some ==> r is None && final(fs)@ == old(fs)@,
            self.lookup(old(fs), name.spec_bytes()) is None ==> (r matches Some(inode) && exists|id: int|
                #[trigger] created(self, old(fs), final(fs), name.spec_bytes(), inode, id)),
    {
        let ghost fs0 = *fs;
        let ghost self_id = choose|id: int| self.is_inode(old(fs), id);
        let ghost m = self.disk_inode(fs);
        let ghost bytes = file_bytes(m, fs@);
        let ghost n = dir_count(m.size);
        proof {
            lemma_inode_placed(fs, self_id);
        }
        let dir = self.read_disk_inode(fs);
        if self.find_inode_id(name, &dir, fs).is_some() {
            return None;
        }
        let new_inode_id = fs.alloc_inode();
        let ghost fs1 = *fs;
        proof {
            lemma_inode_placed(&fs0, new_inode_id as int);
            fs.inode_bitmap.lemma_nonneg();
            assert(1 + new_inode_id as int / 4096 < fs0.inode_area_start()) by (nonlinear_arith)
                requires
                    new_inode_id < fs0.inode_bitmap.num_blocks() * 4096,
                    fs0.inode_area_start() == 1 + fs0.inode_bitmap.num_blocks(),
            ;
            assert(same_from_bitmap(&fs0, fs));
            lemma_ok_frame(&fs0, fs, m);
            fs0.data_bitmap.lemma_nonneg();
            assert(BLOCK_BITS == 4096);
            assert(self.block() < fs0@.len());
            assert(self.block() != 1 + new_inode_id as int / BLOCK_BITS as int);
            assert(fs@[self.block()] == fs0@[self.block()]);
            assert(self.disk_inode(fs) == m);
        }
        let (new_block, new_offset) = fs.get_disk_inode_pos(new_inode_id);
        let new_inode = Inode::new(new_block, new_offset);
        let mut new_disk_inode = new_inode.read_disk_inode(fs);
        new_disk_inode.initialize(DiskInodeType::File);
        new_inode.modify_disk_inode(fs, &new_disk_inode);
        let ghost fs2 = *fs;
        proof {
            assert(new_disk_inode@.direct =~= empty_file().direct);
            lemma_slots_disjoint(fs.inode_area_start(), self_id, new_inode_id as int);
            fs1.cache.lemma_wf();
            lemma_inode_roundtrip(new_disk_inode@);
            if new_inode.block() == self.block() {
                lemma_slot_frame(fs1@[self.block()], self.offset(), new_inode.offset(), inode_bytes(new_disk_inode@));
            }
            assert(self.disk_inode(fs) == m);
            lemma_ok_frame(&fs1, fs, m);
            assert(fs.inode_bits() =~= fs1.inode_bits()) by {
                fs.inode_bitmap.lemma_nonneg();
                assert forall|b: int| 0 <= b < fs.inode_bits().len() implies fs.inode_bits()[b] == fs1.inode_bits()[b] by {
                    assert(1 + b / 4096 < fs.inode_area_start()) by (nonlinear_arith)
                        requires
                            0 <= b < fs.inode_bitmap.num_blocks() * 4096,
                            fs.inode_area_start() == 1 + fs.inode_bitmap.num_blocks(),
                    ;
                }
            }
            assert(fs.usable_data_bits() =~= fs0.usable_data_bits());
        }
        let dir = self.read_disk_inode(fs);
        let file_count = (dir.size as usize) / DIRENT_SZ;
        let dirent = DirEntry::new(name, new_inode_id);
        proof {
            dirent.lemma_raw_len();
        }
        self.write_at(file_count * DIRENT_SZ, dirent.as_bytes(), fs);
        let ghost fs3 = *fs;
        proof {
            lemma_slots_disjoint(fs.inode_area_start(), self_id, new_inode_id as int);
            fs2.cache.lemma_wf();
            lemma_inode_roundtrip(self.disk_inode(fs));
            if new_inode.block() == self.block() {
                lemma_slot_frame(fs2@[self.block()], new_inode.offset(), self.offset(), inode_bytes(self.disk_inode(fs)));
                assert(fs@[self.block()].subrange(new_inode.offset(), new_inode.offset() + DISK_INODE_SZ)
                    == fs2@[self.block()].subrange(new_inode.offset(), new_inode.offset() + DISK_INODE_SZ));
            } else {
                assert(fs@[new_inode.block()] == fs2@[new_inode.block()]);
            }
            assert(new_inode.disk_inode(fs) == empty_file());
            assert(fs.inode_bits() =~= fs2.inode_bits()) by {
                fs.inode_bitmap.lemma_nonneg();
                assert forall|b: int| 0 <= b < fs.inode_bits().len() implies fs.inode_bits()[b] == fs2.inode_bits()[b] by {
                    assert(1 + b / 4096 < fs.inode_area_start()) by (nonlinear_arith)
                        requires
                            0 <= b < fs.inode_bitmap.num_blocks() * 4096,
                            fs.inode_area_start() == 1 + fs.inode_bitmap.num_blocks(),
                    ;
                }
            }
            let m2 = self.disk_inode(fs);
            let bytes2 = file_bytes(m2, fs@);
            let off = file_count * DIRENT_SZ;
            assert forall|i: int| 0 <= i < n implies #[trigger] dir_entry(bytes2, i) == dir_entry(bytes, i) by {
                assert forall|k: int| 0 <= k < DIRENT_SZ implies dir_entry(bytes2, i)[k] == dir_entry(bytes, i)[k] by {
                    assert(DIRENT_SZ * i + k < off) by (nonlinear_arith)
                        requires
                            0 <= i < n,
                            0 <= k < DIRENT_SZ,
                            off == n * DIRENT_SZ,
                    ;
                    assert(bytes2[DIRENT_SZ * i + k] == bytes[DIRENT_SZ * i + k]);
                }
                assert(dir_entry(bytes2, i) =~= dir_entry(bytes, i));
            }
            assert(dir_entry(bytes2, n) =~= dirent.raw());
            assert(dir_entry(bytes2, n).subrange(0, name.spec_bytes().len() as int) =~= name.spec_bytes());
            if !name.spec_bytes().contains(0u8) {
                lemma_lookup_appended(bytes, bytes2, n, name.spec_bytes());
            }
            assert(new_inode.is_inode(fs, new_inode_id as int));
        }
        block_cache_sync_all(&mut fs.cache);
        proof {
            assert(fs@ == fs3@);
            let m3 = self.disk_inode(&fs3);
            let end = file_count * DIRENT_SZ + DIRENT_SZ;
            assert(same_from_bitmap(&fs0, &fs2));
            lemma_ok_frame(&fs0, &fs2, m);
            assert(m3.size == end);
            assert forall|k: int|
                0 <= k < fs0.data_bitmap.start() && k != self.block() && k != new_inode.block() && k != 1
                    + new_inode_id as int / BLOCK_BITS as int implies #[trigger] fs@[k] == fs0@[k] by {
                assert(fs3@[k] == fs2@[k]);
                assert(fs2@[k] == fs1@[k]);
                assert(fs1@[k] == fs0@[k]);
            }
            assert forall|k: int, j: int|
                (k == self.block() || k == new_inode.block()) && 0 <= j < BLOCK_SZ && !(k == self.block()
                    && self.offset() <= j < self.offset() + DISK_INODE_SZ) && !(k == new_inode.block()
                    && new_inode.offset() <= j < new_inode.offset() + DISK_INODE_SZ) implies #[trigger] fs@[k][j]
                == fs0@[k][j] by {
                if k == self.block() {
                    let d = inode_bytes(m3);
                    assert(d.len() == DISK_INODE_SZ);
                    assert(fs3@[k] == splice(fs2@[k], self.offset(), d));
                    assert(fs3@[k][j] == fs2@[k][j]);
                } else {
                    assert(fs3@[k] == fs2@[k]);
                }
                if k == new_inode.block() {
                    let d = inode_bytes(new_disk_inode@);
                    assert(d.len() == DISK_INODE_SZ);
                    assert(fs2@[k] == splice(fs1@[k], new_inode.offset(), d));
                    assert(fs2@[k][j] == fs1@[k][j]);
                } else {
                    assert(fs2@[k] == fs1@[k]);
                }
                assert(fs1@[k] == fs0@[k]);
            }
            assert forall|k: int|
                fs0.data_area_start() <= k < fs0@.len() && k - fs0.data_area_start() < fs0.data_bits().len()
                    && fs0.data_bits()[k - fs0.data_area_start()] && !block_list(m, fs0@, data_blocks_of(m.size)).contains(
                    k as u32,
                ) implies #[trigger] fs@[k] == fs0@[k] by {
                assert(fs3@[k] == fs2@[k]);
            }
            assert(fs.free_data_blocks() + blocks_to_grow(m.size, m3.size) == fs0.free_data_blocks());
            assert(new_inode.is_inode(fs, new_inode_id as int));
            assert(fs.inode_bits() == fs0.inode_bits().update(new_inode_id as int, true));
            assert(created(self, &fs0, fs, name.spec_bytes(), new_inode, new_inode_id as int));
            assert(self.lookup(&fs0, name.spec_bytes()) is None);
            assert(fs0 == *old(fs));
            assert(exists|id: int| #[trigger] created(self, old(fs), fs, name.spec_bytes(), new_inode, id));
        }
        let r = Some(new_inode);
        assert(r is Some);
        assert(r->0 == new_inode);
        assert(exists|id: int| #[trigger] created(self, old(fs), fs, name.spec_bytes(), r->0, id));
        r
    }

    /// Empties the file: every block it used, data and index blocks, is zeroed
    /// and freed, and its size becomes 0; then everything is written back to
    /// the device.
    #[verifier::rlimit(50)]
    pub fn clear<D: BlockDevice>(&self, fs: &mut EasyFileSystem<D>)
        requires
            old(fs).wf(),
            self.placed(old(fs)),
            inode_ok(old(fs), self.disk_inode(old(fs))),
        ensures
            ({
                let m = self.disk_inode(old(fs));
                let list = block_list(m, old(fs)@, data_blocks_of(m.size));
                let m2 = self.disk_inode(final(fs));
                let st = old(fs).data_area_start();
                &&& final(fs).wf()
                &&& final(fs).same_layout(old(fs))
                &&& final(fs)@.len() == old(fs)@.len()
                &&& final(fs).device_blocks() == final(fs)@
                &&& m2.size == 0
                &&& m2.is_dir == m.is_dir
                &&& inode_ok(final(fs), m2)
                &&& final(fs).free_data_blocks() == old(fs).free_data_blocks() + total_blocks_of(
                    data_blocks_of(m.size),
                )
                &&& forall|k: int| 0 <= k < list.len() ==> #[trigger] final(fs)@[list[k] as int] == zero_block()
                &&& forall|b: int|
                    0 <= b < old(fs).data_bits().len() ==> #[trigger] final(fs).data_bits()[b] == (old(
                        fs,
                    ).data_bits()[b] && !list.contains((b + st) as u32))
                &&& forall|k: int|
                    0 <= k < old(fs).data_bitmap.start() && k != self.block() ==> #[trigger] final(fs)@[k]
                        == old(fs)@[k]
                &&& forall|k: int|
                    st <= k < old(fs)@.len() && !list.contains(k as u32) ==> #[trigger] final(fs)@[k]
                        == old(fs)@[k]
            }),
    {
        let ghost m = self.disk_inode(fs);
        let ghost fs0 = *fs;
        let ghost st = fs.data_area_start();
        let mut disk_inode = self.read_disk_inode(fs);
        let ghost list = block_list(m, fs@, data_blocks_of(m.size));
        proof {
            fs.cache.lemma_wf();
            lemma_list_len(m, fs@, data_blocks_of(m.size));
        }
        let data_blocks_dealloc = disk_inode.clear_size(&mut fs.cache);
        assert(data_blocks_dealloc@ == list);
        let mut i: usize = 0;
        while i < data_blocks_dealloc.len()
            invariant
                fs.wf(),
                fs.same_layout(&fs0),
                fs@.len() == fs0@.len(),
                st == fs0.data_area_start(),
                data_blocks_dealloc@ == list,
                list.no_duplicates(),
                forall|k: int| 0 <= k < list.len() ==> (#[trigger] list[k] as int) < fs0@.len(),
                forall|k: int|
                    0 <= k < list.len() ==> {
                        let b = #[trigger] list[k] as int;
                        &&& st <= b
                        &&& b - st < fs0.data_bits().len()
                        &&& fs0.data_bits()[b - st]
                    },
                i <= list.len(),
                fs.free_data_blocks() == fs0.free_data_blocks() + i,
                forall|k: int| 0 <= k < i ==> #[trigger] fs@[list[k] as int] == zero_block(),
                forall|b: int|
                    0 <= b < fs0.data_bits().len() ==> #[trigger] fs.data_bits()[b] == (fs0.data_bits()[b]
                        && !list.subrange(0, i as int).contains((b + st) as u32)),
                forall|k: int|
                    0 <= k < fs0.data_bitmap.start() ==> #[trigger] fs@[k] == fs0@[k],
                forall|k: int|
                    st <= k < fs0@.len() && !list.subrange(0, i as int).contains(k as u32) ==> #[trigger] fs@[k]
                        == fs0@[k],
            decreases list.len() - i,
        {
            let ghost before = *fs;
            let blk = data_blocks_dealloc[i];
            proof {
                assert(!list.subrange(0, i as int).contains(blk)) by {
                    if list.subrange(0, i as int).contains(blk) {
                        let j = choose|j: int| 0 <= j < i && list.subrange(0, i as int)[j] == blk;
                        assert(list[j] == list[i as int]);
                    }
                }
                assert(fs.data_bits()[blk - st]);
            }
            fs.dealloc_data(blk);
            proof {
                fs0.data_bitmap.lemma_nonneg();
                let next = list.subrange(0, i + 1);
                assert(next =~= list.subrange(0, i as int).push(blk));
                assert forall|b: int| 0 <= b < fs0.data_bits().len() implies #[trigger] fs.data_bits()[b] == (
                    fs0.data_bits()[b] && !next.contains((b + st) as u32)) by {
                    if b == blk - st {
                        assert(next[i as int] == blk);
                    } else {
                        assert(before.data_bits()[b] == fs.data_bits()[b]);
                        if list.subrange(0, i as int).contains((b + st) as u32) {
                            let j = choose|j: int| 0 <= j < i && list.subrange(0, i as int)[j] == (b + st) as u32;
                            assert(next[j] == (b + st) as u32);
                        }
                        if next.contains((b + st) as u32) {
                            let j = choose|j: int| 0 <= j < next.len() && next[j] == (b + st) as u32;
                            if j < i {
                                assert(list.subrange(0, i as int)[j] == (b + st) as u32);
                            }
                        }
                    }
                }
                assert forall|k: int| 0 <= k < i + 1 implies #[trigger] fs@[list[k] as int] == zero_block() by {
                    if k < i {
                        assert(list[k] != blk);
                        assert(st <= list[k]);
                        assert((fs0.data_bitmap.start() + (blk - st) / 4096) < st) by (nonlinear_arith)
                            requires
                                0 <= blk - st < fs0.data_bitmap.num_blocks() * 4096,
                                st == fs0.data_bitmap.start() + fs0.data_bitmap.num_blocks(),
                        ;
                    }
                }
                assert((fs0.data_bitmap.start() + (blk - st) / 4096) < st) by (nonlinear_arith)
                    requires
                        0 <= blk - st < fs0.data_bitmap.num_blocks() * 4096,
                        st == fs0.data_bitmap.start() + fs0.data_bitmap.num_blocks(),
                ;
                assert((fs0.data_bitmap.start() + (blk - st) / 4096) >= fs0.data_bitmap.start());
                assert forall|k: int| st <= k < fs0@.len() && !next.contains(k as u32) implies #[trigger] fs@[k]
                    == fs0@[k] by {
                    if k == blk {
                        assert(next[i as int] == blk);
                    }
                    if list.subrange(0, i as int).contains(k as u32) {
                        let j = choose|j: int| 0 <= j < i && list.subrange(0, i as int)[j] == k as u32;
                        assert(next[j] == k as u32);
                    }
                }
            }
            i += 1;
        }
        let ghost fs1 = *fs;
        proof {
            assert(list.subrange(0, list.len() as int) =~= list);
            assert(disk_inode@.direct.len() == INODE_DIRECT_COUNT);
        }
        self.modify_disk_inode(fs, &disk_inode);
        block_cache_sync_all(&mut fs.cache);
        proof {
            let m2 = self.disk_inode(fs);
            assert(m2 == disk_inode@);
            assert(data_blocks_of(0) == 0);
            assert(block_list(m2, fs@, 0) =~= Seq::<u32>::empty());
            lemma_data_bits_frame(&fs1, fs);
            fs0.data_bitmap.lemma_nonneg();
            assert forall|k: int| 0 <= k < list.len() implies #[trigger] fs@[list[k] as int] == zero_block() by {
                assert(st <= list[k]);
            }
            assert forall|k: int| 0 <= k < fs0.data_bitmap.start() && k != self.block() implies #[trigger] fs@[k]
                == fs0@[k] by {
                assert(fs1@[k] == fs0@[k]);
            }
            assert forall|k: int| st <= k < fs0@.len() && !list.contains(k as u32) implies #[trigger] fs@[k]
                == fs0@[k] by {
                assert(fs1@[k] == fs0@[k]);
            }
        }
    }
}


impl<D: BlockDevice> EasyFileSystem<D> {
    /// The root directory: inode 0.
    pub fn root_inode(&self) -> (r: Inode)
        requires
            self.wf(),
        ensures
            r.block() == inode_pos(self.inode_area_start(), 0).0,
            r.offset() == inode_pos(self.inode_area_start(), 0).1,
    {
        let (block_id, block_offset) = self.get_disk_inode_pos(0);
        Inode::new(block_id, block_offset)
    }
}

/// Reading back what a write wrote: after `write_at(offset, buf)` the file is
/// long enough for a read of `buf.len()` bytes at `offset` to read all of them,
/// and those bytes are `buf`.
pub proof fn law_read_after_write<D: BlockDevice>(
    inode: &Inode,
    fs1: &EasyFileSystem<D>,
    fs2: &EasyFileSystem<D>,
    offset: int,
    buf: Seq<u8>,
)
    requires
        0 <= offset,
        written(inode, fs1, fs2, offset, buf),
    ensures
        io_len(offset, buf.len() as int, inode.disk_inode(fs2).size as int) == buf.len(),
        file_bytes(inode.disk_inode(fs2), fs2@).subrange(offset, offset + buf.len()) == buf,
{
    let m2 = inode.disk_inode(fs2);
    assert forall|k: int| 0 <= k < buf.len() implies file_bytes(m2, fs2@).subrange(
        offset,
        offset + buf.len(),
    )[k] == buf[k] by {
        assert(file_bytes(m2, fs2@)[offset + k] == buf[k]);
    }
    assert(file_bytes(m2, fs2@).subrange(offset, offset + buf.len()) =~= buf);
}

/// Writing one file leaves every other file as it was: an inode in another slot
/// keeps its disk inode, and a file that was fine and shares no block with the
/// written one keeps its contents and stays fine.
pub proof fn law_write_keeps_others<D: BlockDevice>(
    inode: &Inode,
    other: &Inode,
    fs1: &EasyFileSystem<D>,
    fs2: &EasyFileSystem<D>,
    offset: int,
    buf: Seq<u8>,
)
    requires
        fs1.wf(),
        inode.placed(fs1),
        other.placed(fs1),
        other.block() != inode.block() || other.offset() + DISK_INODE_SZ <= inode.offset() || inode.offset()
            + DISK_INODE_SZ <= other.offset(),
        written(inode, fs1, fs2, offset, buf),
        inode_ok(fs1, other.disk_inode(fs1)),
        forall|k: int|
            0 <= k < block_list(other.disk_inode(fs1), fs1@, data_blocks_of(other.disk_inode(fs1).size)).len()
                ==> !block_list(inode.disk_inode(fs1), fs1@, data_blocks_of(inode.disk_inode(fs1).size)).contains(
                #[trigger] block_list(other.disk_inode(fs1), fs1@, data_blocks_of(other.disk_inode(fs1).size))[k],
            ),
    ensures
        other.disk_inode(fs2) == other.disk_inode(fs1),
        inode_ok(fs2, other.disk_inode(fs1)),
        file_bytes(other.disk_inode(fs2), fs2@) == file_bytes(other.disk_inode(fs1), fs1@),
{
    let om = other.disk_inode(fs1);
    fs1.cache.lemma_wf();
    fs1.data_bitmap.lemma_nonneg();
    lemma_inode_roundtrip(inode.disk_inode(fs2));
    if other.block() == inode.block() {
        lemma_slot_frame(fs1@[inode.block()], other.offset(), inode.offset(), inode_bytes(inode.disk_inode(fs2)));
    }
    let list = block_list(om, fs1@, data_blocks_of(om.size));
    assert forall|k: int| 0 <= k < list.len() implies fs2@[list[k] as int] == fs1@[list[k] as int] by {
        assert(!block_list(inode.disk_inode(fs1), fs1@, data_blocks_of(inode.disk_inode(fs1).size)).contains(list[k]));
    }
    lemma_inode_frame(om, fs1@, fs2@);
}

/// Creating a file makes a lookup of its name in the directory find it, at the
/// position of the inode that was returned.
pub proof fn law_find_after_create<D: BlockDevice>(
    dir: &Inode,
    fs1: &EasyFileSystem<D>,
    fs2: &EasyFileSystem<D>,
    name: Seq<u8>,
    inode: Inode,
    id: int,
)
    requires
        created(dir, fs1, fs2, name, inode, id),
        !name.contains(0u8),
    ensures
        dir.lookup(fs2, name) == Some(id as u32),
        inode.block() == inode_pos(fs2.inode_area_start(), id).0,
        inode.offset() == inode_pos(fs2.inode_area_start(), id).1,
        inode.disk_inode(fs2).size == 0,
{
}
/// Reading a file (of `size` bytes `bytes`) in two chunks, the second from
/// where the first ended, gives what one read of both lengths gives: as many
/// bytes in all, the same bytes, and a second chunk only after a full first.
pub proof fn law_read_in_chunks(bytes: Seq<u8>, offset: int, len1: int, len2: int, size: int)
    requires
        0 <= offset <= size,
        0 <= len1,
        0 <= len2,
        size <= bytes.len(),
    ensures
        ({
            let r1 = io_len(offset, len1, size);
            let r2 = io_len(offset + r1, len2, size);
            bytes.subrange(offset, offset + r1) + bytes.subrange(offset + r1, offset + r1 + r2) == bytes.subrange(
                offset,
                offset + io_len(offset, len1 + len2, size),
            )
        }),
        io_len(offset, len1, size) + io_len(offset + io_len(offset, len1, size), len2, size) == io_len(
            offset,
            len1 + len2,
            size,
        ),
        io_len(offset + io_len(offset, len1, size), len2, size) > 0 ==> io_len(offset, len1, size) == len1,
{
    let r1 = io_len(offset, len1, size);
    let r2 = io_len(offset + r1, len2, size);
    assert(bytes.subrange(offset, offset + r1) + bytes.subrange(offset + r1, offset + r1 + r2) =~= bytes.subrange(
        offset,
        offset + r1 + r2,
    ));
}

} // verus!
