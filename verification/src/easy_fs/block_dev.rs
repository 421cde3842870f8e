//! The interface between the file system and a storage device.
use vstd::prelude::*;

verus! {

/// Size of a block in bytes.
pub const BLOCK_SZ: usize = 512;

/// A device that reads and writes whole blocks of `BLOCK_SZ` bytes.
///
/// Drivers implement it (a VirtIO disk, an image file on the host, ...).
/// Its contents are modelled as a sequence of blocks; the contracts of the
/// two methods say that a read gives back the block and a write replaces it.
pub trait BlockDevice {
    /// The contents of the device, one entry per block.
    spec fn blocks(&self) -> Seq<Seq<u8>>;

    /// Reads block `block_id` into `buf`.
    fn read_block(&self, block_id: usize, buf: &mut [u8])
        requires
            block_id < self.blocks().len(),
            old(buf)@.len() == BLOCK_SZ,
        ensures
            final(buf)@ == self.blocks()[block_id as int],
    ;

    /// Writes `buf` to block `block_id`.
    fn write_block(&mut self, block_id: usize, buf: &[u8])
        requires
            block_id < old(self).blocks().len(),
            buf@.len() == BLOCK_SZ,
        ensures
            final(self).blocks() == old(self).blocks().update(block_id as int, buf@),
    ;
}

/// A device whose blocks all have the size the file system expects.
pub open spec fn blocks_well_sized(blocks: Seq<Seq<u8>>) -> bool {
    forall|i: int| 0 <= i < blocks.len() ==> #[trigger] blocks[i].len() == BLOCK_SZ
}

/// A block device kept in memory: block `i` is bytes `[i * BLOCK_SZ, (i + 1) * BLOCK_SZ)`.
#[derive(Clone)]
pub struct RamDisk {
    data: Vec<u8>,
}

/// Block `i` of a flat byte image.
pub open spec fn image_block(data: Seq<u8>, i: int) -> Seq<u8> {
    data.subrange(i * BLOCK_SZ, i * BLOCK_SZ + BLOCK_SZ)
}

proof fn lemma_block_range(i: int, n: int, k: int)
    requires
        0 <= i < n,
        0 <= k < BLOCK_SZ,
    ensures
        0 <= i * BLOCK_SZ + k < n * BLOCK_SZ,
        i * BLOCK_SZ + BLOCK_SZ <= n * BLOCK_SZ,
{
    assert(i * BLOCK_SZ + BLOCK_SZ <= n * BLOCK_SZ) by (nonlinear_arith)
        requires
            0 <= i < n,
    ;
}

proof fn lemma_blocks_disjoint(i: int, j: int, k: int)
    requires
        i != j,
        0 <= i,
        0 <= j,
        0 <= k < BLOCK_SZ,
    ensures
        !(j * BLOCK_SZ <= i * BLOCK_SZ + k < j * BLOCK_SZ + BLOCK_SZ),
{
    assert(!(j * BLOCK_SZ <= i * BLOCK_SZ + k < j * BLOCK_SZ + BLOCK_SZ)) by (nonlinear_arith)
        requires
            i != j,
            0 <= i,
            0 <= j,
            0 <= k < BLOCK_SZ,
    ;
}

proof fn lemma_image_blocks(len: nat, i: int)
    requires
        0 <= i < len / BLOCK_SZ as nat,
    ensures
        i * BLOCK_SZ + BLOCK_SZ <= len,
{
    lemma_block_range(i, (len / BLOCK_SZ as nat) as int, 0);
    assert((len / BLOCK_SZ as nat) * BLOCK_SZ <= len) by (nonlinear_arith);
}

impl RamDisk {
    /// A disk of `num_blocks` zeroed blocks.
    pub fn new(num_blocks: usize) -> (r: Self)
        requires
            num_blocks * BLOCK_SZ <= usize::MAX,
        ensures
            r.blocks().len() == num_blocks,
            forall|i: int|
                0 <= i < num_blocks ==> #[trigger] r.blocks()[i] == Seq::new(BLOCK_SZ as nat, |j: int| 0u8),
    {
        let data: Vec<u8> = vec![0u8; num_blocks * BLOCK_SZ];
        let r = RamDisk { data };
        assert forall|i: int| 0 <= i < num_blocks implies #[trigger] r.blocks()[i] =~= Seq::new(
            BLOCK_SZ as nat,
            |j: int| 0u8,
        ) by {
            lemma_block_range(i, num_blocks as int, 0);
        }
        r
    }

    /// Number of blocks of the disk.
    pub fn num_blocks(&self) -> (r: usize)
        ensures
            r == self.blocks().len(),
    {
        self.data.len() / BLOCK_SZ
    }
}

impl BlockDevice for RamDisk {
    closed spec fn blocks(&self) -> Seq<Seq<u8>> {
        Seq::new(self.data@.len() / BLOCK_SZ as nat, |i: int| image_block(self.data@, i))
    }

    fn read_block(&self, block_id: usize, buf: &mut [u8]) {
        let n = buf.len();
        let len = self.data.len();
        proof {
            lemma_image_blocks(self.data@.len(), block_id as int);
        }
        let base = block_id * BLOCK_SZ;
        let mut i: usize = 0;
        while i < n
            invariant
                n == buf@.len(),
                n == BLOCK_SZ,
                base == block_id * BLOCK_SZ,
                base + BLOCK_SZ <= self.data@.len(),
                len == self.data@.len(),
                i <= n,
                forall|k: int| 0 <= k < i ==> buf@[k] == self.data@[base + k],
            decreases n - i,
        {
            buf[i] = self.data[base + i];
            i = i + 1;
        }
        assert(buf@ =~= self.blocks()[block_id as int]);
    }

    fn write_block(&mut self, block_id: usize, buf: &[u8]) {
        let len = self.data.len();
        proof {
            lemma_image_blocks(self.data@.len(), block_id as int);
        }
        let base = block_id * BLOCK_SZ;
        let mut i: usize = 0;
        while i < BLOCK_SZ
            invariant
                buf@.len() == BLOCK_SZ,
                base == block_id * BLOCK_SZ,
                base + BLOCK_SZ <= self.data@.len(),
                self.data@.len() == old(self).data@.len(),
                i <= BLOCK_SZ,
                forall|k: int| 0 <= k < i ==> self.data@[base + k] == buf@[k],
                forall|k: int|
                    0 <= k < self.data@.len() && !(base <= k < base + i) ==> self.data@[k] == old(
                        self,
                    ).data@[k],
            decreases BLOCK_SZ - i,
        {
            self.data.set(base + i, buf[i]);
            i = i + 1;
        }
        let ghost n = (self.data@.len() / BLOCK_SZ as nat) as int;
        assert forall|j: int| 0 <= j < n implies #[trigger] self.blocks()[j] =~= old(self).blocks().update(
            block_id as int,
            buf@,
        )[j] by {
            lemma_block_range(j, n, 0);
            if j != block_id {
                assert forall|k: int| 0 <= k < BLOCK_SZ implies #[trigger] self.blocks()[j][k] == old(
                    self,
                ).blocks()[j][k] by {
                    lemma_blocks_disjoint(j, block_id as int, k);
                    lemma_block_range(j, n, k);
                }
            }
        }
        assert(self.blocks() =~= old(self).blocks().update(block_id as int, buf@));
    }
}

} // verus!
