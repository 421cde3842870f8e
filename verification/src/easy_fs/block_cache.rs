//! A write-back cache of disk blocks.
//!
//! The file system never talks to the device directly: it reads and modifies
//! bytes of blocks through [`BlockCacheManager`], which keeps up to
//! `BLOCK_CACHE_SIZE` blocks in memory and writes modified ones back when they
//! are evicted or when [`block_cache_sync_all`] is called.
//!
//! The manager's view is the *logical* disk: what a reader sees, that is the
//! device with every cached block replaced by its cached copy.
use super::block_dev::{blocks_well_sized, BlockDevice, BLOCK_SZ};
use vstd::bytes::*;
use vstd::prelude::*;

verus! {

/// Maximum number of blocks held in memory.
pub const BLOCK_CACHE_SIZE: usize = 16;

/// `s` with the bytes from `off` on replaced by `d`.
pub open spec fn splice(s: Seq<u8>, off: int, d: Seq<u8>) -> Seq<u8> {
    s.subrange(0, off) + d + s.subrange(off + d.len(), s.len() as int)
}

/// The little-endian `u32` stored at byte `off` of `b`.
pub open spec fn u32_at(b: Seq<u8>, off: int) -> u32 {
    spec_u32_from_le_bytes(b.subrange(off, off + 4))
}

/// The little-endian `u64` stored at byte `off` of `b`.
pub open spec fn u64_at(b: Seq<u8>, off: int) -> u64 {
    spec_u64_from_le_bytes(b.subrange(off, off + 8))
}

/// The little-endian bytes of `x`.
pub open spec fn u32_bytes(x: u32) -> Seq<u8> {
    spec_u32_to_le_bytes(x)
}

/// The little-endian bytes of `x`.
pub open spec fn u64_bytes(x: u64) -> Seq<u8> {
    spec_u64_to_le_bytes(x)
}

/// Writing a `u32` at `off` and reading it back gives it; reading elsewhere is unaffected.
pub proof fn lemma_u32_splice(b: Seq<u8>, off: int, x: u32, off2: int)
    requires
        0 <= off,
        off + 4 <= b.len(),
        0 <= off2,
        off2 + 4 <= b.len(),
        off2 == off || off2 + 4 <= off || off + 4 <= off2,
    ensures
        splice(b, off, u32_bytes(x)).len() == b.len(),
        u32_at(splice(b, off, u32_bytes(x)), off2) == if off2 == off {
            x
        } else {
            u32_at(b, off2)
        },
{
    lemma_auto_spec_u32_to_from_le_bytes();
    let s = splice(b, off, u32_bytes(x));
    if off2 == off {
        assert(s.subrange(off2, off2 + 4) =~= u32_bytes(x));
    } else {
        assert(s.subrange(off2, off2 + 4) =~= b.subrange(off2, off2 + 4));
    }
}

/// Writing a `u64` at `off` and reading it back gives it; reading elsewhere is unaffected.
pub proof fn lemma_u64_splice(b: Seq<u8>, off: int, x: u64, off2: int)
    requires
        0 <= off,
        off + 8 <= b.len(),
        0 <= off2,
        off2 + 8 <= b.len(),
        off2 == off || off2 + 8 <= off || off + 8 <= off2,
    ensures
        splice(b, off, u64_bytes(x)).len() == b.len(),
        u64_at(splice(b, off, u64_bytes(x)), off2) == if off2 == off {
            x
        } else {
            u64_at(b, off2)
        },
{
    lemma_auto_spec_u64_to_from_le_bytes();
    let s = splice(b, off, u64_bytes(x));
    if off2 == off {
        assert(s.subrange(off2, off2 + 8) =~= u64_bytes(x));
    } else {
        assert(s.subrange(off2, off2 + 8) =~= b.subrange(off2, off2 + 8));
    }
}

/// One cached block.
pub struct BlockCache {
    cache: Vec<u8>,
    block_id: usize,
    modified: bool,
}

impl BlockCache {
    /// The cached bytes.
    pub closed spec fn data(&self) -> Seq<u8> {
        self.cache@
    }

    /// The block this cache holds.
    pub closed spec fn id(&self) -> usize {
        self.block_id
    }

    /// Whether the cached bytes may differ from the device.
    pub closed spec fn is_modified(&self) -> bool {
        self.modified
    }

    /// Loads block `block_id` from the device.
    pub fn new<D: BlockDevice>(block_id: usize, block_device: &D) -> (r: Self)
        requires
            block_id < block_device.blocks().len(),
        ensures
            r.id() == block_id,
            r.data() == block_device.blocks()[block_id as int],
            !r.is_modified(),
    {
        let mut cache: Vec<u8> = vec![0u8; BLOCK_SZ];
        block_device.read_block(block_id, cache.as_mut_slice());
        BlockCache { cache, block_id, modified: false }
    }

    /// Writes the block back to the device if it was modified.
    pub fn sync<D: BlockDevice>(&mut self, block_device: &mut D)
        requires
            old(self).data().len() == BLOCK_SZ,
            old(self).id() < old(block_device).blocks().len(),
        ensures
            final(self).data() == old(self).data(),
            final(self).id() == old(self).id(),
            !final(self).is_modified(),
            final(block_device).blocks() == if old(self).is_modified() {
                old(block_device).blocks().update(old(self).id() as int, old(self).data())
            } else {
                old(block_device).blocks()
            },
    {
        if self.modified {
            self.modified = false;
            block_device.write_block(self.block_id, self.cache.as_slice());
        }
    }

    /// Reads `len` bytes from byte `offset` of the block.
    pub fn read(&self, offset: usize, len: usize) -> (r: Vec<u8>)
        requires
            offset + len <= self.data().len(),
        ensures
            r@ == self.data().subrange(offset as int, offset + len),
    {
        let mut r: Vec<u8> = Vec::with_capacity(len);
        let n = self.cache.len();
        let mut i: usize = 0;
        while i < len
            invariant
                offset + len <= self.cache@.len(),
                n == self.cache@.len(),
                i <= len,
                r@ == self.cache@.subrange(offset as int, offset + i),
            decreases len - i,
        {
            r.push(self.cache[offset + i]);
            i = i + 1;
            assert(r@ =~= self.cache@.subrange(offset as int, offset + i));
        }
        r
    }

    /// Overwrites the bytes from `offset` with `data` and marks the block modified.
    pub fn modify(&mut self, offset: usize, data: &[u8])
        requires
            offset + data@.len() <= old(self).data().len(),
        ensures
            final(self).data() == splice(old(self).data(), offset as int, data@),
            final(self).id() == old(self).id(),
            final(self).is_modified(),
    {
        self.modified = true;
        let n = self.cache.len();
        let mut i: usize = 0;
        while i < data.len()
            invariant
                offset + data@.len() <= old(self).cache@.len(),
                n == old(self).cache@.len(),
                self.cache@.len() == old(self).cache@.len(),
                self.block_id == old(self).block_id,
                self.modified,
                i <= data@.len(),
                forall|k: int|
                    0 <= k < self.cache@.len() ==> #[trigger] self.cache@[k] == if offset <= k
                        < offset + i {
                        data@[k - offset]
                    } else {
                        old(self).cache@[k]
                    },
            decreases data@.len() - i,
        {
            self.cache.set(offset + i, data[i]);
            i = i + 1;
        }
        assert(self.cache@ =~= splice(old(self).cache@, offset as int, data@));
    }
}

/// The cached blocks, in the order they were loaded, over the device they cache.
pub struct BlockCacheManager<D: BlockDevice> {
    queue: Vec<BlockCache>,
    device: D,
    disk: Ghost<Seq<Seq<u8>>>,
}

impl<D: BlockDevice> View for BlockCacheManager<D> {
    type V = Seq<Seq<u8>>;

    /// The logical disk: the device with cached blocks replaced by their cached copies.
    closed spec fn view(&self) -> Seq<Seq<u8>> {
        self.disk@
    }
}

impl<D: BlockDevice> BlockCacheManager<D> {
    spec fn is_cached(&self, k: int) -> bool {
        exists|i: int| 0 <= i < self.queue@.len() && self.queue@[i].block_id == k
    }

    /// The manager's internal consistency.
    pub closed spec fn wf(&self) -> bool {
        &&& self.queue@.len() <= BLOCK_CACHE_SIZE
        &&& self.disk@.len() == self.device.blocks().len()
        &&& blocks_well_sized(self.device.blocks())
        &&& blocks_well_sized(self.disk@)
        &&& forall|i: int|
            0 <= i < self.queue@.len() ==> {
                let c = #[trigger] self.queue@[i];
                &&& c.cache@.len() == BLOCK_SZ
                &&& c.block_id < self.disk@.len()
                &&& self.disk@[c.block_id as int] == c.cache@
                &&& !c.modified ==> self.device.blocks()[c.block_id as int] == c.cache@
            }
        &&& forall|i: int, j: int|
            0 <= i < self.queue@.len() && 0 <= j < self.queue@.len() && i != j
                ==> #[trigger] self.queue@[i].block_id != #[trigger] self.queue@[j].block_id
        &&& forall|k: int|
            0 <= k < self.disk@.len() && !self.is_cached(k) ==> #[trigger] self.disk@[k]
                == self.device.blocks()[k]
    }

    /// Slot `idx` of the cache holds block `block_id`.
    pub closed spec fn slot_holds(&self, idx: int, block_id: int) -> bool {
        0 <= idx < self.queue@.len() && self.queue@[idx].block_id == block_id
    }

    /// The blocks held in the cache, in the order they were loaded.
    pub closed spec fn cached(&self) -> Seq<usize> {
        self.queue@.map_values(|c: BlockCache| c.block_id)
    }

    /// No cached block holds a modification the device lacks.
    pub closed spec fn clean(&self) -> bool {
        forall|i: int| 0 <= i < self.queue@.len() ==> !(#[trigger] self.queue@[i]).modified
    }

    /// The contents of the device itself, without the cached modifications.
    pub closed spec fn device_blocks(&self) -> Seq<Seq<u8>> {
        self.device.blocks()
    }

    /// A manager with an empty cache over `block_device`.
    pub fn new(block_device: D) -> (r: Self)
        requires
            blocks_well_sized(block_device.blocks()),
        ensures
            r.wf(),
            r@ == block_device.blocks(),
            r.device_blocks() == block_device.blocks(),
    {
        BlockCacheManager { queue: Vec::new(), device: block_device, disk: Ghost(block_device.blocks()) }
    }

    /// The device, read-only.
    pub fn device(&self) -> (r: &D)
        ensures
            r.blocks() == self.device_blocks(),
    {
        &self.device
    }

    /// Number of blocks of the disk.
    pub proof fn lemma_wf(&self)
        requires
            self.wf(),
        ensures
            self@.len() == self.device_blocks().len(),
            blocks_well_sized(self@),
            blocks_well_sized(self.device_blocks()),
    {
    }

    /// The position in the queue of the cache of `block_id`, loading the block first
    /// (and evicting the oldest cached block when the cache is full) if needed.
    pub fn get_block_cache(&mut self, block_id: usize) -> (idx: usize)
        requires
            old(self).wf(),
            block_id < old(self)@.len(),
        ensures
            final(self).wf(),
            final(self)@ == old(self)@,
            final(self).slot_holds(idx as int, block_id as int),
            old(self).cached().contains(block_id) ==> final(self).cached() == old(self).cached()
                && final(self).device_blocks() == old(self).device_blocks(),
            !old(self).cached().contains(block_id) && old(self).cached().len() < BLOCK_CACHE_SIZE
                ==> final(self).cached() == old(self).cached().push(block_id)
                && final(self).device_blocks() == old(self).device_blocks(),
            !old(self).cached().contains(block_id) && old(self).cached().len() == BLOCK_CACHE_SIZE
                ==> final(self).cached() == old(self).cached().drop_first().push(block_id)
                && final(self).device_blocks() == old(self).device_blocks().update(
                old(self).cached()[0] as int,
                old(self)@[old(self).cached()[0] as int],
            ),
    {
        let ghost c0 = self.cached();
        let ghost d0 = self.device.blocks();
        let ghost disk0 = self.disk@;
        let mut i: usize = 0;
        while i < self.queue.len()
            invariant
                self.wf(),
                block_id < self@.len(),
                i <= self.queue@.len(),
                forall|j: int| 0 <= j < i ==> #[trigger] self.queue@[j].block_id != block_id,
                c0 == self.cached(),
                c0 == old(self).cached(),
                d0 == self.device.blocks(),
                d0 == old(self).device_blocks(),
                disk0 == self.disk@,
                disk0 == old(self)@,
            decreases self.queue@.len() - i,
        {
            if self.queue[i].block_id == block_id {
                assert(c0[i as int] == block_id);
                return i;
            }
            i = i + 1;
        }
        assert(!self.is_cached(block_id as int));
        assert(!c0.contains(block_id)) by {
            if c0.contains(block_id) {
                let j = choose|j: int| 0 <= j < c0.len() && c0[j] == block_id;
                assert(self.queue@[j].block_id == block_id);
            }
        }
        if self.queue.len() == BLOCK_CACHE_SIZE {
            let ghost old_queue = self.queue@;
            let ghost old_dev = self.device.blocks();
            let mut victim = self.queue.remove(0);
            victim.sync(&mut self.device);
            assert forall|k: int|
                0 <= k < self.disk@.len() && !self.is_cached(k) implies #[trigger] self.disk@[k]
                == self.device.blocks()[k] by {
                if k != victim.block_id {
                    if exists|i: int| 0 <= i < old_queue.len() && old_queue[i].block_id == k {
                        let i = choose|i: int| 0 <= i < old_queue.len() && old_queue[i].block_id == k;
                        assert(i != 0);
                        assert(self.queue@[i - 1] == old_queue[i]);
                    }
                }
            }
            assert forall|i: int| 0 <= i < self.queue@.len() implies {
                let c = #[trigger] self.queue@[i];
                &&& c.cache@.len() == BLOCK_SZ
                &&& c.block_id < self.disk@.len()
                &&& self.disk@[c.block_id as int] == c.cache@
                &&& !c.modified ==> self.device.blocks()[c.block_id as int] == c.cache@
            } by {
                assert(self.queue@[i] == old_queue[i + 1]);
                assert(old_queue[i + 1].block_id != old_queue[0].block_id);
            }
            assert forall|i: int, j: int|
                0 <= i < self.queue@.len() && 0 <= j < self.queue@.len() && i != j
                    implies #[trigger] self.queue@[i].block_id != #[trigger] self.queue@[j].block_id by {
                assert(self.queue@[i] == old_queue[i + 1]);
                assert(self.queue@[j] == old_queue[j + 1]);
            }
            assert(self.cached() =~= c0.drop_first());
            assert(victim.cache@ == disk0[victim.block_id as int]);
            assert(self.device.blocks() =~= d0.update(c0[0] as int, disk0[c0[0] as int]));
        }
        let cache = BlockCache::new(block_id, &self.device);
        let ghost before = self.queue@;
        self.queue.push(cache);
        assert forall|k: int|
            0 <= k < self.disk@.len() && !self.is_cached(k) implies #[trigger] self.disk@[k]
            == self.device.blocks()[k] by {
            if exists|i: int| 0 <= i < before.len() && before[i].block_id == k {
                let i = choose|i: int| 0 <= i < before.len() && before[i].block_id == k;
                assert(self.queue@[i] == before[i]);
            }
        }
        assert forall|i: int| 0 <= i < self.queue@.len() implies {
            let c = #[trigger] self.queue@[i];
            &&& c.cache@.len() == BLOCK_SZ
            &&& c.block_id < self.disk@.len()
            &&& self.disk@[c.block_id as int] == c.cache@
            &&& !c.modified ==> self.device.blocks()[c.block_id as int] == c.cache@
        } by {
            if i < before.len() {
                assert(self.queue@[i] == before[i]);
            }
        }
        assert forall|i: int, j: int|
            0 <= i < self.queue@.len() && 0 <= j < self.queue@.len() && i != j
                implies #[trigger] self.queue@[i].block_id != #[trigger] self.queue@[j].block_id by {
            if i < before.len() {
                assert(self.queue@[i] == before[i]);
            }
            if j < before.len() {
                assert(self.queue@[j] == before[j]);
            }
        }
        assert(self.cached() =~= before.map_values(|c: BlockCache| c.block_id).push(block_id));
        self.queue.len() - 1
    }

    /// Reads `len` bytes from byte `offset` of block `block_id`.
    pub fn read(&mut self, block_id: usize, offset: usize, len: usize) -> (r: Vec<u8>)
        requires
            old(self).wf(),
            block_id < old(self)@.len(),
            offset + len <= BLOCK_SZ,
        ensures
            final(self).wf(),
            final(self)@ == old(self)@,
            r@ == old(self)@[block_id as int].subrange(offset as int, offset + len),
    {
        let idx = self.get_block_cache(block_id);
        self.queue[idx].read(offset, len)
    }

    /// Overwrites the bytes of block `block_id` from byte `offset` with `data`.
    pub fn modify(&mut self, block_id: usize, offset: usize, data: &[u8])
        requires
            old(self).wf(),
            block_id < old(self)@.len(),
            offset + data@.len() <= BLOCK_SZ,
        ensures
            final(self).wf(),
            final(self)@ == old(self)@.update(
                block_id as int,
                splice(old(self)@[block_id as int], offset as int, data@),
            ),
    {
        let idx = self.get_block_cache(block_id);
        let ghost mid = self.queue@;
        self.queue[idx].modify(offset, data);
        let ghost new_block = splice(old(self)@[block_id as int], offset as int, data@);
        proof {
            self.disk = Ghost(self.disk@.update(block_id as int, new_block));
            assert forall|i: int| 0 <= i < self.queue@.len() implies {
                let c = #[trigger] self.queue@[i];
                &&& c.cache@.len() == BLOCK_SZ
                &&& c.block_id < self.disk@.len()
                &&& self.disk@[c.block_id as int] == c.cache@
                &&& !c.modified ==> self.device.blocks()[c.block_id as int] == c.cache@
            } by {
                if i != idx {
                    assert(self.queue@[i] == mid[i]);
                    assert(mid[i].block_id != mid[idx as int].block_id);
                }
            }
            assert forall|i: int, j: int|
                0 <= i < self.queue@.len() && 0 <= j < self.queue@.len() && i != j
                    implies #[trigger] self.queue@[i].block_id != #[trigger] self.queue@[j].block_id by {
                if i != idx {
                    assert(self.queue@[i] == mid[i]);
                }
                if j != idx {
                    assert(self.queue@[j] == mid[j]);
                }
            }
            assert forall|k: int|
                0 <= k < self.disk@.len() && !self.is_cached(k) implies #[trigger] self.disk@[k]
                == self.device.blocks()[k] by {
                if k == block_id {
                    assert(self.queue@[idx as int].block_id == k);
                }
                if exists|i: int| 0 <= i < mid.len() && mid[i].block_id == k {
                    let i = choose|i: int| 0 <= i < mid.len() && mid[i].block_id == k;
                    if i != idx {
                        assert(self.queue@[i] == mid[i]);
                    }
                }
            }
        }
    }

    /// The little-endian `u32` at byte `offset` of block `block_id`.
    pub fn read_u32(&mut self, block_id: usize, offset: usize) -> (r: u32)
        requires
            old(self).wf(),
            block_id < old(self)@.len(),
            offset + 4 <= BLOCK_SZ,
        ensures
            final(self).wf(),
            final(self)@ == old(self)@,
            r == u32_at(old(self)@[block_id as int], offset as int),
    {
        let bytes = self.read(block_id, offset, 4);
        u32_from_le_bytes(bytes.as_slice())
    }

    /// Stores `value` little-endian at byte `offset` of block `block_id`.
    pub fn write_u32(&mut self, block_id: usize, offset: usize, value: u32)
        requires
            old(self).wf(),
            block_id < old(self)@.len(),
            offset + 4 <= BLOCK_SZ,
        ensures
            final(self).wf(),
            final(self)@ == old(self)@.update(
                block_id as int,
                splice(old(self)@[block_id as int], offset as int, u32_bytes(value)),
            ),
    {
        let bytes = u32_to_le_bytes(value);
        self.modify(block_id, offset, bytes.as_slice());
    }

    /// The little-endian `u64` at byte `offset` of block `block_id`.
    pub fn read_u64(&mut self, block_id: usize, offset: usize) -> (r: u64)
        requires
            old(self).wf(),
            block_id < old(self)@.len(),
            offset + 8 <= BLOCK_SZ,
        ensures
            final(self).wf(),
            final(self)@ == old(self)@,
            r == u64_at(old(self)@[block_id as int], offset as int),
    {
        let bytes = self.read(block_id, offset, 8);
        u64_from_le_bytes(bytes.as_slice())
    }

    /// Stores `value` little-endian at byte `offset` of block `block_id`.
    pub fn write_u64(&mut self, block_id: usize, offset: usize, value: u64)
        requires
            old(self).wf(),
            block_id < old(self)@.len(),
            offset + 8 <= BLOCK_SZ,
        ensures
            final(self).wf(),
            final(self)@ == old(self)@.update(
                block_id as int,
                splice(old(self)@[block_id as int], offset as int, u64_bytes(value)),
            ),
    {
        let bytes = u64_to_le_bytes(value);
        self.modify(block_id, offset, bytes.as_slice());
    }

    /// Writes every modified cached block back to the device.
    pub fn sync_all(&mut self)
        requires
            old(self).wf(),
        ensures
            final(self).wf(),
            final(self)@ == old(self)@,
            final(self).device_blocks() == old(self)@,
            final(self).cached() == old(self).cached(),
            final(self).clean(),
    {
        let mut i: usize = 0;
        while i < self.queue.len()
            invariant
                self.wf(),
                self.disk@ == old(self).disk@,
                self.queue@.len() == old(self).queue@.len(),
                forall|j: int| 0 <= j < self.queue@.len() ==> (#[trigger] self.queue@[j]).block_id == old(self).queue@[j].block_id,
                i <= self.queue@.len(),
                forall|j: int| 0 <= j < i ==> !(#[trigger] self.queue@[j]).modified,
            decreases self.queue@.len() - i,
        {
            let ghost mid = self.queue@;
            let ghost mid_dev = self.device.blocks();
            self.queue[i].sync(&mut self.device);
            assert forall|j: int| 0 <= j < self.queue@.len() && j != i implies #[trigger] self.queue@[j]
                == mid[j] by {}
            assert forall|j: int| 0 <= j < self.queue@.len() && j != i implies mid[j].block_id
                != mid[i as int].block_id by {}
            assert forall|k: int|
                0 <= k < self.disk@.len() && !self.is_cached(k) implies #[trigger] self.disk@[k]
                == self.device.blocks()[k] by {
                if k == mid[i as int].block_id {
                    assert(self.queue@[i as int].block_id == k);
                }
                if exists|j: int| 0 <= j < mid.len() && mid[j].block_id == k {
                    let j = choose|j: int| 0 <= j < mid.len() && mid[j].block_id == k;
                    assert(self.queue@[j].block_id == k);
                }
            }
            i = i + 1;
        }
        assert forall|k: int| 0 <= k < self.disk@.len() implies #[trigger] self.disk@[k]
            == self.device.blocks()[k] by {
            if self.is_cached(k) {
                let j = choose|j: int| 0 <= j < self.queue@.len() && self.queue@[j].block_id == k;
                assert(!self.queue@[j].modified);
            }
        }
        assert(self.device.blocks() =~= self.disk@);
        assert(self.cached() =~= old(self).cached());
    }
}

/// Writes every modified cached block back to its device.
pub fn block_cache_sync_all<D: BlockDevice>(manager: &mut BlockCacheManager<D>)
    requires
        old(manager).wf(),
    ensures
        final(manager).wf(),
        final(manager)@ == old(manager)@,
        final(manager).device_blocks() == old(manager)@,
        final(manager).cached() == old(manager).cached(),
        final(manager).clean(),
{
    manager.sync_all();
}

} // verus!
