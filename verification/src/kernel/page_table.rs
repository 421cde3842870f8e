//! Sv39 page tables, kept in physical memory: three levels of 512 entries of
//! 8 bytes, each level indexed by 9 bits of the virtual page number.
//!
//! Physical memory is given as a byte slice indexed by physical address.
use super::address::{page_floor, PhysAddr, PhysPageNum, VirtAddr, VirtPageNum};
use super::config::PAGE_SIZE;
use super::frame_allocator::{frame_alloc, FrameTracker, StackFrameAllocator};
use crate::easy_fs::block_cache::{lemma_u64_splice, splice, u64_at, u64_bytes};
use vstd::bytes::{
    lemma_auto_spec_u64_to_from_le_bytes, spec_u64_to_le_bytes_open, spec_u64_to_le_bytes_to_open,
    u64_from_le_bytes, u64_to_le_bytes,
};
use vstd::prelude::*;

verus! {

/// The entry is valid.
pub const PTE_V: u8 = 0x1;

/// The page may be read.
pub const PTE_R: u8 = 0x2;

/// The page may be written.
pub const PTE_W: u8 = 0x4;

/// The page may be executed.
pub const PTE_X: u8 = 0x8;

/// The page is accessible in user mode.
pub const PTE_U: u8 = 0x10;

/// Number of virtual pages of Sv39: page numbers have 27 bits.
pub const VPN_LIMIT: usize = 0x800_0000;

/// Mask of the 44 bits of a physical page number.
pub const PPN_MASK: u64 = 0xfff_ffff_ffff;

/// The flags of a page table entry, as its low 8 bits.
#[derive(PartialEq, Eq, Structural, Clone, Copy)]
pub struct PTEFlags {
    pub bits: u8,
}

/// A page table entry: a physical page number in bits 10..54 and flags in bits 0..8.
#[derive(PartialEq, Eq, Structural, Clone, Copy)]
pub struct PageTableEntry {
    pub bits: u64,
}

/// The physical page number an entry points to.
pub open spec fn pte_ppn(bits: u64) -> u64 {
    (bits >> 10u64) & PPN_MASK
}

/// The entry is valid.
pub open spec fn pte_valid(bits: u64) -> bool {
    bits & 1u64 == 1u64
}

/// The entry for page `ppn` with flags `flags`.
pub open spec fn pte_bits(ppn: u64, flags: u8) -> u64 {
    (ppn << 10u64) | (flags as u64)
}

/// An entry built from a page number that fits gives that page number back,
/// and is valid exactly when its flags say so.
pub proof fn lemma_pte_fields(ppn: u64, flags: u8)
    requires
        ppn <= PPN_MASK,
    ensures
        pte_ppn(pte_bits(ppn, flags)) == ppn,
        pte_valid(pte_bits(ppn, flags)) == (flags & 1u8 == 1u8),
        (pte_bits(ppn, flags) as u8) == flags,
{
    let f = flags as u64;
    assert(f < 256);
    assert((((ppn << 10u64) | f) >> 10u64) & 0xfff_ffff_ffffu64 == ppn) by (bit_vector)
        requires
            ppn <= 0xfff_ffff_ffffu64,
            f < 256,
    ;
    assert((((ppn << 10u64) | f) & 1u64 == 1u64) == (f & 1u64 == 1u64)) by (bit_vector)
        requires
            f < 256,
    ;
    assert(((ppn << 10u64) | f) as u8 == f as u8) by (bit_vector)
        requires
            f < 256,
    ;
    assert((f & 1u64 == 1u64) == (flags & 1u8 == 1u8)) by (bit_vector)
        requires
            f == flags as u64,
    ;
}

impl PageTableEntry {
    /// The entry for page `ppn` with flags `flags`.
    pub fn new(ppn: PhysPageNum, flags: PTEFlags) -> (r: Self)
        requires
            ppn.0 <= PPN_MASK,
        ensures
            r.bits == pte_bits(ppn.0 as u64, flags.bits),
    {
        let p = ppn.0 as u64;
        Self { bits: (p << 10) | flags.bits as u64 }
    }

    /// The invalid entry: every bit clear.
    pub fn empty() -> (r: Self)
        ensures
            r.bits == 0,
    {
        Self { bits: 0 }
    }

    /// The physical page the entry points to.
    pub fn ppn(&self) -> (r: PhysPageNum)
        requires
            pte_ppn(self.bits) <= usize::MAX,
        ensures
            r.0 == pte_ppn(self.bits),
    {
        PhysPageNum(((self.bits >> 10) & PPN_MASK) as usize)
    }

    /// The flags of the entry.
    pub fn flags(&self) -> (r: PTEFlags)
        ensures
            r.bits == self.bits as u8,
    {
        PTEFlags { bits: self.bits as u8 }
    }

    /// Whether the entry is valid.
    pub fn is_valid(&self) -> (r: bool)
        ensures
            r == pte_valid(self.bits),
    {
        let b = self.bits;
        let r = (self.flags().bits & PTE_V) != 0;
        assert(((b as u8) & 1u8 != 0u8) == (b & 1u64 == 1u64)) by (bit_vector);
        r
    }

    /// Whether the page may be read.
    pub fn readable(&self) -> (r: bool)
        ensures
            r == ((self.bits as u8) & PTE_R != 0),
    {
        (self.flags().bits & PTE_R) != 0
    }

    /// Whether the page may be written.
    pub fn writable(&self) -> (r: bool)
        ensures
            r == ((self.bits as u8) & PTE_W != 0),
    {
        (self.flags().bits & PTE_W) != 0
    }

    /// Whether the page may be executed.
    pub fn executable(&self) -> (r: bool)
        ensures
            r == ((self.bits as u8) & PTE_X != 0),
    {
        (self.flags().bits & PTE_X) != 0
    }
}

/// Index into the level-`level` table (0 is the root) of virtual page `vpn`.
pub open spec fn vpn_index(vpn: int, level: int) -> int {
    if level == 0 {
        (vpn / 262144) % 512
    } else if level == 1 {
        (vpn / 512) % 512
    } else {
        vpn % 512
    }
}

impl VirtPageNum {
    /// The indices of the page into the three levels of tables, root first.
    pub fn indexes(&self) -> (r: [usize; 3])
        ensures
            forall|l: int| 0 <= l < 3 ==> #[trigger] r@[l] == vpn_index(self.0 as int, l),
    {
        let mut vpn = self.0;
        let mut idx = [0usize; 3];
        let v0 = vpn;
        idx[2] = vpn & 511;
        vpn = vpn >> 9;
        idx[1] = vpn & 511;
        vpn = vpn >> 9;
        idx[0] = vpn & 511;
        assert(v0 & 511 == v0 % 512 && (v0 >> 9) & 511 == (v0 / 512) % 512 && ((v0 >> 9) >> 9) & 511 == (v0
            / 262144) % 512) by (bit_vector);
        idx
    }
}

/// The entry `idx` of the table in page `ppn`.
pub open spec fn entry_at(mem: Seq<u8>, ppn: int, idx: int) -> u64 {
    u64_at(mem, ppn * PAGE_SIZE + idx * 8)
}

/// Page `ppn` lies inside `mem`.
pub open spec fn page_in(mem: Seq<u8>, ppn: int) -> bool {
    0 <= ppn && ppn * PAGE_SIZE + PAGE_SIZE <= mem.len()
}

/// The table pages on the way to the entry of `vpn` from the root `root`,
/// as far as the entries are valid: `(level-1 table, level-2 table)`, each
/// `None` when the entry above it is invalid.
pub open spec fn walk_tables(mem: Seq<u8>, root: int, vpn: int) -> (Option<int>, Option<int>) {
    let e0 = entry_at(mem, root, vpn_index(vpn, 0));
    if !pte_valid(e0) {
        (None, None)
    } else {
        let p1 = pte_ppn(e0) as int;
        let e1 = entry_at(mem, p1, vpn_index(vpn, 1));
        if !pte_valid(e1) {
            (Some(p1), None)
        } else {
            (Some(p1), Some(pte_ppn(e1) as int))
        }
    }
}

/// Address of the last-level entry of `vpn`, when the way to it is valid.
pub open spec fn leaf_entry(mem: Seq<u8>, root: int, vpn: int) -> Option<int> {
    match walk_tables(mem, root, vpn).1 {
        Some(p2) => Some(p2 * PAGE_SIZE + vpn_index(vpn, 2) * 8),
        None => None,
    }
}

/// Every table page on the way to the entry of `vpn` lies inside `mem`.
pub open spec fn walk_in(mem: Seq<u8>, root: int, vpn: int) -> bool {
    let (t1, t2) = walk_tables(mem, root, vpn);
    &&& page_in(mem, root)
    &&& (t1 matches Some(p1) ==> page_in(mem, p1))
    &&& (t2 matches Some(p2) ==> page_in(mem, p2))
}

/// Reads the little-endian `u64` at byte `addr` of `mem`.
fn read_u64(mem: &[u8], addr: usize) -> (r: u64)
    requires
        addr + 8 <= mem@.len(),
    ensures
        r == u64_at(mem@, addr as int),
{
    let _len = mem.len();
    u64_from_le_bytes(&mem[addr..addr + 8])
}

/// Writes `value` little-endian at byte `addr` of `mem`.
fn write_u64(mem: &mut [u8], addr: usize, value: u64)
    requires
        addr + 8 <= old(mem)@.len(),
    ensures
        final(mem)@ == splice(old(mem)@, addr as int, u64_bytes(value)),
{
    let _len = mem.len();
    let bytes = u64_to_le_bytes(value);
    proof {
        lemma_auto_spec_u64_to_from_le_bytes();
    }
    let mut i: usize = 0;
    while i < 8
        invariant
            bytes@ == u64_bytes(value),
            bytes@.len() == 8,
            addr + 8 <= mem@.len(),
            mem@.len() == old(mem)@.len(),
            mem@.len() <= usize::MAX,
            i <= 8,
            forall|k: int|
                0 <= k < mem@.len() ==> #[trigger] mem@[k] == if addr <= k < addr + i {
                    bytes@[k - addr]
                } else {
                    old(mem)@[k]
                },
        decreases 8 - i,
    {
        mem[addr + i] = bytes[i];
        i += 1;
    }
    assert(mem@ =~= splice(old(mem)@, addr as int, u64_bytes(value)));
}

/// `alloc` hands out pages of `mem` only, and their numbers fit in an entry.
pub open spec fn frames_fit(alloc: StackFrameAllocator, mem: Seq<u8>) -> bool {
    &&& alloc.wf()
    &&& alloc.limit() * PAGE_SIZE <= mem.len()
    &&& alloc.limit() <= PPN_MASK
}

/// Page `p` is a frame that `alloc` has handed out.
pub open spec fn frame_used(alloc: StackFrameAllocator, p: int) -> bool {
    0 <= p <= usize::MAX && alloc.in_use(p as usize)
}

/// The tables reachable from `root` are laid out as Sv39 asks, `lv` giving
/// each its level: the root has level 0, every table lies inside `mem`, every
/// valid entry of a table of level 0 or 1 points to a table of the next level,
/// and no two such entries point to the same table.
pub open spec fn tables_placed(mem: Seq<u8>, root: int, lv: Map<int, nat>) -> bool {
    &&& lv.dom().contains(root)
    &&& lv[root] == 0
    &&& forall|p: int| #[trigger] lv.dom().contains(p) ==> page_in(mem, p) && lv[p] <= 2
    &&& forall|p: int, i: int|
        lv.dom().contains(p) && lv[p] < 2 && 0 <= i < 512 && pte_valid(#[trigger] entry_at(mem, p, i))
            ==> {
            let q = pte_ppn(entry_at(mem, p, i)) as int;
            lv.dom().contains(q) && lv[q] == lv[p] + 1
        }
    &&& forall|p: int, i: int, q: int, j: int|
        lv.dom().contains(p) && lv[p] < 2 && 0 <= i < 512 && pte_valid(#[trigger] entry_at(mem, p, i))
            && lv.dom().contains(q) && lv[q] < 2 && 0 <= j < 512 && pte_valid(#[trigger] entry_at(mem, q, j))
            && pte_ppn(entry_at(mem, p, i)) == pte_ppn(entry_at(mem, q, j)) ==> p == q && i == j
}

/// Every table of `lv` is a frame that `alloc` has handed out.
pub open spec fn tables_owned(lv: Map<int, nat>, alloc: StackFrameAllocator) -> bool {
    forall|p: int| #[trigger] lv.dom().contains(p) ==> frame_used(alloc, p)
}

/// How many tables are missing on the way to the entry of `vpn`.
pub open spec fn missing_tables(mem: Seq<u8>, root: int, vpn: int) -> int {
    match walk_tables(mem, root, vpn) {
        (None, _) => 2,
        (Some(_), None) => 1,
        (Some(_), Some(_)) => 0,
    }
}

/// The last-level entry of `vpn`, when the way to it is valid.
pub open spec fn leaf_value(mem: Seq<u8>, root: int, vpn: int) -> Option<u64> {
    match leaf_entry(mem, root, vpn) {
        Some(a) => Some(u64_at(mem, a)),
        None => None,
    }
}

/// What page `vpn` is mapped by: its last-level entry, when that is valid.
pub open spec fn mapping(mem: Seq<u8>, root: int, vpn: int) -> Option<u64> {
    match leaf_value(mem, root, vpn) {
        Some(e) => if pte_valid(e) {
            Some(e)
        } else {
            None
        },
        None => None,
    }
}

/// Pages `v` and `w` go through the same entry at every level.
pub open spec fn same_slot(v: int, w: int) -> bool {
    &&& vpn_index(v, 0) == vpn_index(w, 0)
    &&& vpn_index(v, 1) == vpn_index(w, 1)
    &&& vpn_index(v, 2) == vpn_index(w, 2)
}

/// `m1` is `m0` with the entry of `vpn` set to `e`: the entry of `vpn` reads
/// `e`, and every page that goes through another entry keeps its mapping.
pub open spec fn remapped(m0: Seq<u8>, m1: Seq<u8>, root: int, vpn: int, e: u64) -> bool {
    &&& leaf_value(m1, root, vpn) == Some(e)
    &&& forall|w: int| 0 <= w && !same_slot(vpn, w) ==> #[trigger] mapping(m1, root, w) == mapping(m0, root, w)
}

/// The `satp` value that turns on Sv39 paging from root page `root`.
pub open spec fn token_of(root: int) -> usize {
    ((8u64 << 60u64) | (root as u64)) as usize
}

/// The root page that `satp` selects.
pub open spec fn root_of(satp: usize) -> int {
    (((satp as u64) & PPN_MASK) as usize) as int
}

/// Entry `a` of the root is valid: the level-1 table for it is there.
pub open spec fn l1_present(mem: Seq<u8>, root: int, a: int) -> bool {
    pte_valid(entry_at(mem, root, a))
}

/// Entry `b` of the level-1 table under root entry `a` is valid: the level-2
/// table for it is there.
pub open spec fn l2_present(mem: Seq<u8>, root: int, a: int, b: int) -> bool {
    &&& l1_present(mem, root, a)
    &&& pte_valid(entry_at(mem, pte_ppn(entry_at(mem, root, a)) as int, b))
}

/// The root entries whose level-1 table is there.
pub open spec fn present1(mem: Seq<u8>, root: int) -> Set<int> {
    Set::new(|a: int| 0 <= a < 512 && l1_present(mem, root, a))
}

/// The pairs of root and level-1 entries whose level-2 table is there.
pub open spec fn present2(mem: Seq<u8>, root: int) -> Set<(int, int)> {
    Set::new(|ab: (int, int)| 0 <= ab.0 < 512 && 0 <= ab.1 < 512 && l2_present(mem, root, ab.0, ab.1))
}

/// How many table frames mapping the pages `[s, e)` one after the other
/// takes, starting with the level-1 tables of the root entries in `p1` and
/// the level-2 tables of the entry pairs in `p2`.
#[verifier::opaque]
pub open spec fn tables_needed(p1: Set<int>, p2: Set<(int, int)>, s: int, e: int) -> int
    decreases e - s,
{
    if s >= e {
        0
    } else {
        let a = vpn_index(s, 0);
        let b = vpn_index(s, 1);
        (if !p1.contains(a) {
            2int
        } else if !p2.contains((a, b)) {
            1int
        } else {
            0int
        }) + tables_needed(p1.insert(a), p2.insert((a, b)), s + 1, e)
    }
}

/// The entries and entry pairs whose tables are present once the pages
/// `[s, e)` are mapped one after the other, starting from `p1` and `p2`.
#[verifier::opaque]
pub open spec fn present_after(p1: Set<int>, p2: Set<(int, int)>, s: int, e: int) -> (Set<int>, Set<(int, int)>)
    decreases e - s,
{
    if s >= e {
        (p1, p2)
    } else {
        present_after(p1.insert(vpn_index(s, 0)), p2.insert((vpn_index(s, 0), vpn_index(s, 1))), s + 1, e)
    }
}

/// The page that page `vpn` maps to, by its last-level entry.
pub open spec fn frame_of(mem: Seq<u8>, root: int, vpn: int) -> int {
    pte_ppn(leaf_value(mem, root, vpn)->0) as int
}

/// Byte `a` lies in one of the tables of `lv`.
pub open spec fn in_tables(lv: Map<int, nat>, a: int) -> bool {
    exists|p: int| #[trigger] lv.dom().contains(p) && p * PAGE_SIZE <= a < p * PAGE_SIZE + PAGE_SIZE
}

/// `mem` with page `p` zeroed.
pub open spec fn zero_page(mem: Seq<u8>, p: int) -> Seq<u8> {
    Seq::new(
        mem.len(),
        |k: int|
            if p * PAGE_SIZE <= k < p * PAGE_SIZE + PAGE_SIZE {
                0u8
            } else {
                mem[k]
            },
    )
}

/// A frame handed out by an allocator whose pages fit in `mem` lies in `mem`,
/// and its number fits in an entry.
pub proof fn lemma_used_page_in(alloc: StackFrameAllocator, mem: Seq<u8>, p: int)
    requires
        frames_fit(alloc, mem),
        frame_used(alloc, p),
    ensures
        page_in(mem, p),
        p <= PPN_MASK,
{
    let lim = alloc.limit() as int;
    assert(p < lim);
    assert(p * PAGE_SIZE + PAGE_SIZE <= lim * PAGE_SIZE) by (nonlinear_arith)
        requires
            p < lim,
    ;
}

/// A byte of page `f` at offset `x` is a byte of page `p` at offset `y` only
/// when the pages and offsets are the same.
pub proof fn lemma_page_offset_unique(f: int, x: int, p: int, y: int)
    requires
        0 <= x < PAGE_SIZE,
        0 <= y < PAGE_SIZE,
        f * PAGE_SIZE + x == p * PAGE_SIZE + y,
    ensures
        f == p,
        x == y,
{
    assert(f == p) by (nonlinear_arith)
        requires
            0 <= x < 4096,
            0 <= y < 4096,
            f * 4096 + x == p * 4096 + y,
    ;
}

/// A byte of a page that holds no table of `lv` lies in no table.
pub proof fn lemma_not_in_tables(lv: Map<int, nat>, f: int, a: int)
    requires
        !lv.dom().contains(f),
        f * PAGE_SIZE <= a < f * PAGE_SIZE + PAGE_SIZE,
    ensures
        !in_tables(lv, a),
{
    if in_tables(lv, a) {
        let p = choose|p: int| #[trigger] lv.dom().contains(p) && p * PAGE_SIZE <= a < p * PAGE_SIZE + PAGE_SIZE;
        lemma_page_offset_unique(f, a - f * PAGE_SIZE, p, a - p * PAGE_SIZE);
    }
}

/// Writing eight bytes at `off` leaves every other byte alone.
proof fn lemma_splice_outside(m: Seq<u8>, off: int, x: u64, a: int)
    requires
        0 <= off,
        off + 8 <= m.len(),
        0 <= a < m.len(),
        a < off || off + 8 <= a,
    ensures
        splice(m, off, u64_bytes(x))[a] == m[a],
        splice(m, off, u64_bytes(x)).len() == m.len(),
{
    lemma_auto_spec_u64_to_from_le_bytes();
    assert(u64_bytes(x).len() == 8);
    if a < off {
        assert(splice(m, off, u64_bytes(x))[a] == m.subrange(0, off)[a]);
    } else {
        assert(splice(m, off, u64_bytes(x))[a] == m.subrange(off + 8, m.len() as int)[a - off - 8]);
    }
}

/// The bytes of two different entries do not overlap.
proof fn lemma_slots_apart(p: int, i: int, q: int, j: int)
    requires
        0 <= p,
        0 <= q,
        0 <= i < 512,
        0 <= j < 512,
        p != q || i != j,
    ensures
        p * PAGE_SIZE + i * 8 + 8 <= q * PAGE_SIZE + j * 8 || q * PAGE_SIZE + j * 8 + 8 <= p * PAGE_SIZE
            + i * 8,
{
    if p < q {
        assert(p * PAGE_SIZE + PAGE_SIZE <= q * PAGE_SIZE) by (nonlinear_arith)
            requires
                p < q,
        ;
    } else if q < p {
        assert(q * PAGE_SIZE + PAGE_SIZE <= p * PAGE_SIZE) by (nonlinear_arith)
            requires
                q < p,
        ;
    }
}

/// Zeroing page `p` zeroes its entries and leaves those of other pages alone.
proof fn lemma_zero_page_entry(mem: Seq<u8>, p: int, q: int, i: int)
    requires
        page_in(mem, p),
        page_in(mem, q),
        0 <= i < 512,
    ensures
        zero_page(mem, p).len() == mem.len(),
        entry_at(zero_page(mem, p), q, i) == if p == q {
            0
        } else {
            entry_at(mem, q, i)
        },
{
    let z = zero_page(mem, p);
    let a = q * PAGE_SIZE + i * 8;
    if p == q {
        lemma_zero_u64(z, a);
    } else {
        if p < q {
            assert(p * PAGE_SIZE + PAGE_SIZE <= q * PAGE_SIZE) by (nonlinear_arith)
                requires
                    p < q,
            ;
        } else {
            assert(q * PAGE_SIZE + PAGE_SIZE <= p * PAGE_SIZE) by (nonlinear_arith)
                requires
                    q < p,
            ;
        }
        assert(z.subrange(a, a + 8) =~= mem.subrange(a, a + 8));
    }
}

/// Writing entry `i` of page `p` changes that entry only.
proof fn lemma_write_entry(mem: Seq<u8>, p: int, i: int, x: u64, q: int, j: int)
    requires
        page_in(mem, p),
        page_in(mem, q),
        0 <= i < 512,
        0 <= j < 512,
    ensures
        splice(mem, p * PAGE_SIZE + i * 8, u64_bytes(x)).len() == mem.len(),
        entry_at(splice(mem, p * PAGE_SIZE + i * 8, u64_bytes(x)), q, j) == if p == q && i == j {
            x
        } else {
            entry_at(mem, q, j)
        },
{
    if p != q || i != j {
        lemma_slots_apart(p, i, q, j);
    }
    lemma_u64_splice(mem, p * PAGE_SIZE + i * 8, x, q * PAGE_SIZE + j * 8);
}

/// On the way to any page, well-placed tables give a table of level 1 and then
/// one of level 2, all inside `mem`.
pub proof fn lemma_placed_walk(mem: Seq<u8>, root: int, lv: Map<int, nat>, vpn: int)
    requires
        tables_placed(mem, root, lv),
        0 <= vpn,
    ensures
        walk_in(mem, root, vpn),
        walk_tables(mem, root, vpn).0 matches Some(p1) ==> lv.dom().contains(p1) && lv[p1] == 1,
        walk_tables(mem, root, vpn).1 matches Some(p2) ==> lv.dom().contains(p2) && lv[p2] == 2,
{
    let i0 = vpn_index(vpn, 0);
    let e0 = entry_at(mem, root, i0);
    assert(lv.dom().contains(root));
    if pte_valid(e0) {
        let p1 = pte_ppn(e0) as int;
        assert(lv.dom().contains(p1));
        let i1 = vpn_index(vpn, 1);
        let e1 = entry_at(mem, p1, i1);
        if pte_valid(e1) {
            let p2 = pte_ppn(e1) as int;
            assert(lv.dom().contains(p2));
        }
    }
}

/// A page table: the page of its root table and the frames it owns.
pub struct PageTable {
    root_ppn: PhysPageNum,
    frames: Vec<FrameTracker>,
    levels: Ghost<Map<int, nat>>,
}

impl PageTable {
    /// The page of the root table.
    pub closed spec fn root(&self) -> int {
        self.root_ppn.0 as int
    }

    /// The pages of the tables the page table allocated, root first.
    pub closed spec fn owned(&self) -> Seq<usize> {
        Seq::new(self.frames@.len(), |i: int| self.frames@[i].ppn.0)
    }

    /// The level of each table, the root's being 0.
    pub closed spec fn levels(&self) -> Map<int, nat> {
        self.levels@
    }

    /// The tables are well placed in `mem`.
    pub open spec fn placed(&self, mem: Seq<u8>) -> bool {
        tables_placed(mem, self.root(), self.levels())
    }

    /// The tables are well placed in `mem`, in frames that `alloc` handed out.
    pub open spec fn wf(&self, mem: Seq<u8>, alloc: StackFrameAllocator) -> bool {
        &&& frames_fit(alloc, mem)
        &&& self.placed(mem)
        &&& tables_owned(self.levels(), alloc)
    }

    /// A page table with an empty root table, in a frame of `allocator`; there
    /// must be a frame left.
    pub fn new(allocator: &mut StackFrameAllocator, mem: &mut [u8]) -> (r: Self)
        requires
            frames_fit(*old(allocator), old(mem)@),
            old(allocator).available() >= 1,
        ensures
            r.wf(final(mem)@, *final(allocator)),
            final(allocator).limit() == old(allocator).limit(),
            final(allocator).available() == old(allocator).available() - 1,
            !old(allocator).in_use(r.root() as usize),
            forall|p: usize| #[trigger] final(allocator).in_use(p) <==> (old(allocator).in_use(p) || p == r.root()),
            r.owned() == seq![r.root() as usize],
            r.levels() == map![r.root() => 0nat],
            forall|i: int| 0 <= i < 512 ==> #[trigger] entry_at(final(mem)@, r.root(), i) == 0,
            forall|w: int| 0 <= w ==> #[trigger] mapping(final(mem)@, r.root(), w) is None,
            present1(final(mem)@, r.root()) == Set::<int>::empty(),
            present2(final(mem)@, r.root()) == Set::<(int, int)>::empty(),
            final(mem)@ == zero_page(old(mem)@, r.root()),
    {
        let ghost m0 = mem@;
        let frame = match frame_alloc(allocator, mem) {
            Some(f) => f,
            None => {
                proof {
                    assert(false);
                }
                FrameTracker { ppn: PhysPageNum(0) }
            },
        };
        let root_ppn = frame.ppn;
        let ghost p = root_ppn.0 as int;
        let levels: Ghost<Map<int, nat>> = Ghost(Map::empty().insert(p, 0nat));
        let r = PageTable { root_ppn, frames: vec![frame], levels };
        proof {
            assert(r.owned() =~= seq![r.root() as usize]);
            assert(mem@ =~= zero_page(m0, p));
            lemma_used_page_in(*allocator, mem@, p);
            assert forall|i: int| 0 <= i < 512 implies #[trigger] entry_at(mem@, p, i) == 0 by {
                lemma_zero_u64(mem@, p * PAGE_SIZE + i * 8);
            }
            assert(0u64 & 1u64 == 0u64) by (bit_vector);
            assert forall|w: int| 0 <= w implies #[trigger] mapping(mem@, p, w) is None by {
                assert(entry_at(mem@, p, vpn_index(w, 0)) == 0);
            }
            assert(present1(mem@, p) =~= Set::<int>::empty());
            assert(present2(mem@, p) =~= Set::<(int, int)>::empty());
        }
        r
    }

    /// Makes entry `idx` of table `table` point to a table of the next level,
    /// taking a zeroed frame of `allocator` for it when the entry is invalid.
    fn ensure_entry(&mut self, table: usize, idx: usize, allocator: &mut StackFrameAllocator, mem: &mut [u8]) -> (child: usize)
        requires
            old(self).wf(old(mem)@, *old(allocator)),
            old(self).levels().dom().contains(table as int),
            old(self).levels()[table as int] < 2,
            idx < 512,
            !pte_valid(entry_at(old(mem)@, table as int, idx as int)) ==> old(allocator).available() >= 1,
        ensures
            final(self).wf(final(mem)@, *final(allocator)),
            final(self).root() == old(self).root(),
            final(allocator).limit() == old(allocator).limit(),
            final(mem)@.len() == old(mem)@.len(),
            pte_valid(entry_at(final(mem)@, table as int, idx as int)),
            pte_ppn(entry_at(final(mem)@, table as int, idx as int)) == child,
            final(self).levels().dom().contains(child as int),
            final(self).levels()[child as int] == old(self).levels()[table as int] + 1,
            forall|w: int|
                0 <= w ==> #[trigger] mapping(final(mem)@, final(self).root(), w) == mapping(
                    old(mem)@,
                    old(self).root(),
                    w,
                ),
            forall|p: int|
                #[trigger] final(self).levels().dom().contains(p) ==> old(self).levels().dom().contains(p)
                    || !frame_used(*old(allocator), p),
            forall|p: int| #[trigger] old(self).levels().dom().contains(p) ==> final(self).levels().dom().contains(p),
            forall|a: int|
                0 <= a < old(mem)@.len() && !in_tables(final(self).levels(), a) ==> #[trigger] final(mem)@[a] == old(
                    mem,
                )@[a],
            pte_valid(entry_at(old(mem)@, table as int, idx as int)) ==> {
                &&& final(mem)@ == old(mem)@
                &&& *final(allocator) == *old(allocator)
                &&& final(self).levels() == old(self).levels()
                &&& final(self).owned() == old(self).owned()
            },
            !pte_valid(entry_at(old(mem)@, table as int, idx as int)) ==> {
                &&& !old(allocator).in_use(child)
                &&& forall|p: usize| #[trigger] final(allocator).in_use(p) <==> (old(allocator).in_use(p) || p == child)
                &&& final(allocator).available() == old(allocator).available() - 1
                &&& final(self).levels() == old(self).levels().insert(child as int, old(self).levels()[table as int] + 1)
                &&& final(self).owned() == old(self).owned().push(child)
                &&& final(mem)@ == splice(
                    zero_page(old(mem)@, child as int),
                    table * PAGE_SIZE + idx * 8,
                    u64_bytes(pte_bits(child as u64, PTE_V)),
                )
            },
    {
        let _len = mem.len();
        proof {
            lemma_used_page_in(*allocator, mem@, table as int);
        }
        let addr = table * PAGE_SIZE + idx * 8;
        let entry = PageTableEntry { bits: read_u64(mem, addr) };
        if entry.is_valid() {
            proof {
                let q = pte_ppn(entry.bits) as int;
                assert(entry.bits == entry_at(mem@, table as int, idx as int));
                assert(self.levels().dom().contains(q));
                lemma_used_page_in(*allocator, mem@, q);
            }
            let c = entry.ppn();
            c.0
        } else {
            let ghost m0 = mem@;
            let ghost a0 = *allocator;
            let ghost lv0 = self.levels@;
            let frame = match frame_alloc(allocator, mem) {
                Some(f) => f,
                None => {
                    proof {
                        assert(false);
                    }
                    FrameTracker { ppn: PhysPageNum(0) }
                },
            };
            let c = frame.ppn;
            let ghost ci = c.0 as int;
            let ghost m1 = mem@;
            proof {
                assert(m1 =~= zero_page(m0, ci));
                assert(frame_used(*allocator, ci));
                lemma_used_page_in(*allocator, m1, ci);
            }
            let new_entry = PageTableEntry::new(c, PTEFlags { bits: PTE_V });
            write_u64(mem, addr, new_entry.bits);
            self.frames.push(frame);
            let levels: Ghost<Map<int, nat>> = Ghost(lv0.insert(ci, lv0[table as int] + 1));
            self.levels = levels;
            proof {
                let a1 = *allocator;
                let m2 = mem@;
                let lv1 = self.levels();
                let t = table as int;
                let nb = new_entry.bits;
                assert(self.owned() =~= old(self).owned().push(c.0));
                lemma_pte_fields(c.0 as u64, PTE_V);
                assert(1u8 & 1u8 == 1u8) by (bit_vector);
                assert(0u64 & 1u64 == 0u64) by (bit_vector);
                assert(frame_used(a0, t));
                assert(ci != t);
                assert(frame_used(a0, self.root()));
                lemma_write_entry(m1, t, idx as int, nb, t, idx as int);
                assert forall|p: int| #[trigger] lv1.dom().contains(p) implies frame_used(a1, p) by {
                    if p != ci {
                        assert(lv0.dom().contains(p));
                        assert(frame_used(a0, p));
                        assert(a1.in_use(p as usize));
                    }
                }
                assert forall|p: int| #[trigger] lv1.dom().contains(p) implies page_in(m2, p) && lv1[p] <= 2 by {
                    assert(frame_used(a1, p));
                    lemma_used_page_in(a1, m2, p);
                }
                assert forall|p: int, i: int|
                    lv1.dom().contains(p) && lv1[p] < 2 && 0 <= i < 512 && pte_valid(#[trigger] entry_at(m2, p, i)) implies {
                    let q = pte_ppn(entry_at(m2, p, i)) as int;
                    lv1.dom().contains(q) && lv1[q] == lv1[p] + 1
                } by {
                    assert(frame_used(a1, p));
                    lemma_used_page_in(a1, m2, p);
                    lemma_write_entry(m1, t, idx as int, nb, p, i);
                    if p == ci {
                        lemma_zero_page_entry(m0, ci, ci, i);
                    } else if p == t && i == idx {
                    } else {
                        assert(lv0.dom().contains(p));
                        assert(frame_used(a0, p));
                        lemma_used_page_in(a0, m0, p);
                        lemma_zero_page_entry(m0, ci, p, i);
                        let q = pte_ppn(entry_at(m0, p, i)) as int;
                        assert(lv0.dom().contains(q));
                        assert(frame_used(a0, q));
                    }
                }
                assert forall|p: int, i: int, q: int, j: int|
                    lv1.dom().contains(p) && lv1[p] < 2 && 0 <= i < 512 && pte_valid(#[trigger] entry_at(m2, p, i))
                        && lv1.dom().contains(q) && lv1[q] < 2 && 0 <= j < 512 && pte_valid(
                        #[trigger] entry_at(m2, q, j),
                    ) && pte_ppn(entry_at(m2, p, i)) == pte_ppn(entry_at(m2, q, j)) implies p == q && i == j by {
                    assert(frame_used(a1, p));
                    assert(frame_used(a1, q));
                    lemma_used_page_in(a1, m2, p);
                    lemma_used_page_in(a1, m2, q);
                    lemma_write_entry(m1, t, idx as int, nb, p, i);
                    lemma_write_entry(m1, t, idx as int, nb, q, j);
                    lemma_zero_page_entry(m0, ci, p, i);
                    lemma_zero_page_entry(m0, ci, q, j);
                    if !(p == t && i == idx) && p != ci {
                        assert(lv0.dom().contains(p));
                        let pp = pte_ppn(entry_at(m0, p, i)) as int;
                        assert(lv0.dom().contains(pp));
                        assert(frame_used(a0, pp));
                    }
                    if !(q == t && j == idx) && q != ci {
                        assert(lv0.dom().contains(q));
                        let qq = pte_ppn(entry_at(m0, q, j)) as int;
                        assert(lv0.dom().contains(qq));
                        assert(frame_used(a0, qq));
                    }
                }
                assert(!lv0.dom().contains(ci)) by {
                    if lv0.dom().contains(ci) {
                        assert(frame_used(a0, ci));
                    }
                }
                lemma_used_page_in(a1, m1, ci);
                assert forall|w: int| 0 <= w implies #[trigger] mapping(m2, self.root(), w) == mapping(m0, self.root(), w) by {
                    lemma_link_keeps_mappings(m0, self.root(), lv0, t, idx as int, ci, w);
                }
                assert forall|a: int| 0 <= a < m0.len() && !in_tables(lv1, a) implies #[trigger] m2[a] == m0[a] by {
                    if ci * PAGE_SIZE <= a < ci * PAGE_SIZE + PAGE_SIZE {
                        assert(lv1.dom().contains(ci));
                    }
                    if t * PAGE_SIZE + idx * 8 <= a < t * PAGE_SIZE + idx * 8 + 8 {
                        assert(lv1.dom().contains(t));
                    }
                    lemma_splice_outside(m1, t * PAGE_SIZE + idx * 8, nb, a);
                    assert(m1[a] == m0[a]);
                }
            }
            c.0
        }
    }

    /// The address of the last-level entry of `vpn`, creating the tables on
    /// the way to it from zeroed frames of `allocator` where they are missing.
    fn find_pte_create(&mut self, vpn: VirtPageNum, allocator: &mut StackFrameAllocator, mem: &mut [u8]) -> (r: Option<usize>)
        requires
            old(self).wf(old(mem)@, *old(allocator)),
            old(allocator).available() >= missing_tables(old(mem)@, old(self).root(), vpn.0 as int),
        ensures
            final(self).wf(final(mem)@, *final(allocator)),
            final(self).root() == old(self).root(),
            final(allocator).limit() == old(allocator).limit(),
            final(allocator).available() == old(allocator).available() - missing_tables(
                old(mem)@,
                old(self).root(),
                vpn.0 as int,
            ),
            forall|p: usize| old(allocator).in_use(p) ==> #[trigger] final(allocator).in_use(p),
            final(mem)@.len() == old(mem)@.len(),
            r matches Some(a) && leaf_entry(final(mem)@, final(self).root(), vpn.0 as int) == Some(a as int),
            walk_tables(final(mem)@, final(self).root(), vpn.0 as int).1 matches Some(p2)
                && final(self).levels().dom().contains(p2) && final(self).levels()[p2] == 2,
            leaf_value(final(mem)@, final(self).root(), vpn.0 as int) == Some(
                match leaf_value(old(mem)@, old(self).root(), vpn.0 as int) {
                    Some(v) => v,
                    None => 0u64,
                },
            ),
            missing_tables(old(mem)@, old(self).root(), vpn.0 as int) == 0 ==> final(mem)@ == old(mem)@
                && *final(allocator) == *old(allocator),
            forall|w: int|
                0 <= w ==> #[trigger] mapping(final(mem)@, final(self).root(), w) == mapping(
                    old(mem)@,
                    old(self).root(),
                    w,
                ),
            forall|p: int|
                #[trigger] final(self).levels().dom().contains(p) ==> old(self).levels().dom().contains(p)
                    || !frame_used(*old(allocator), p),
            forall|p: int| #[trigger] old(self).levels().dom().contains(p) ==> final(self).levels().dom().contains(p),
            present1(final(mem)@, final(self).root()) == present1(old(mem)@, old(self).root()).insert(
                vpn_index(vpn.0 as int, 0),
            ),
            present2(final(mem)@, final(self).root()) == present2(old(mem)@, old(self).root()).insert(
                (vpn_index(vpn.0 as int, 0), vpn_index(vpn.0 as int, 1)),
            ),
            forall|a: int|
                0 <= a < old(mem)@.len() && !in_tables(final(self).levels(), a) ==> #[trigger] final(mem)@[a] == old(
                    mem,
                )@[a],
    {
        let idxs = vpn.indexes();
        let ghost m0 = mem@;
        let ghost a0 = *allocator;
        let ghost root = self.root();
        let ghost v = vpn.0 as int;
        let ghost i0 = vpn_index(v, 0);
        let ghost i1 = vpn_index(v, 1);
        let ghost i2 = vpn_index(v, 2);
        proof {
            lemma_placed_walk(m0, root, self.levels(), v);
            assert(idxs@[0] == i0 && idxs@[1] == i1 && idxs@[2] == i2);
        }
        let root_ppn = self.root_ppn.0;
        let p1 = self.ensure_entry(root_ppn, idxs[0], allocator, mem);
        let ghost m1 = mem@;
        let ghost a1 = *allocator;
        let ghost lv1 = self.levels();
        let ghost fresh1 = !pte_valid(entry_at(m0, root, i0));
        proof {
            assert(frame_used(a1, root));
            lemma_used_page_in(a1, m1, root);
            lemma_used_page_in(a1, m1, p1 as int);
            if fresh1 {
                lemma_zero_page_entry(m0, p1 as int, p1 as int, i1);
                lemma_write_entry(zero_page(m0, p1 as int), root, i0, pte_bits(p1 as u64, PTE_V), p1 as int, i1);
                assert(0u64 & 1u64 == 0u64) by (bit_vector);
                assert(!pte_valid(entry_at(m1, p1 as int, i1)));
            }
        }
        let p2 = self.ensure_entry(p1, idxs[1], allocator, mem);
        let ghost m2 = mem@;
        let ghost a2 = *allocator;
        let ghost fresh2 = !pte_valid(entry_at(m1, p1 as int, i1));
        proof {
            assert(frame_used(a2, p2 as int));
            lemma_used_page_in(a2, m2, p2 as int);
            assert(p1 as int != root);
            if fresh2 {
                assert(frame_used(a1, p1 as int));
                assert(p2 != p1);
                lemma_zero_page_entry(m1, p2 as int, root, i0);
                lemma_write_entry(zero_page(m1, p2 as int), p1 as int, i1, pte_bits(p2 as u64, PTE_V), root, i0);
                lemma_zero_page_entry(m1, p2 as int, p2 as int, i2);
                lemma_write_entry(zero_page(m1, p2 as int), p1 as int, i1, pte_bits(p2 as u64, PTE_V), p2 as int, i2);
            }
            assert(entry_at(m2, root, i0) == entry_at(m1, root, i0));
            assert(walk_tables(m2, root, v) == (Some(p1 as int), Some(p2 as int)));
            assert forall|w: int| 0 <= w implies #[trigger] mapping(m2, root, w) == mapping(m0, root, w) by {
                assert(mapping(m2, root, w) == mapping(m1, root, w));
                assert(mapping(m1, root, w) == mapping(m0, root, w));
            }
            let lv0 = old(self).levels();
            let lv2 = self.levels();
            assert forall|a: int, b: int| 0 <= a < 512 && 0 <= b < 512 implies (l1_present(m2, root, a) == (
            l1_present(m0, root, a) || a == i0)) && (l2_present(m2, root, a, b) == (l2_present(m0, root, a, b) || (a
                == i0 && b == i1))) by {
                if fresh1 {
                    assert(!lv0.dom().contains(p1 as int)) by {
                        if lv0.dom().contains(p1 as int) {
                            assert(frame_used(a0, p1 as int));
                        }
                    }
                    lemma_used_page_in(a1, m1, p1 as int);
                    lemma_link_presence(m0, root, lv0, root, i0, p1 as int, a, b);
                }
                if fresh2 {
                    assert(!lv1.dom().contains(p2 as int)) by {
                        if lv1.dom().contains(p2 as int) {
                            assert(frame_used(a1, p2 as int));
                        }
                    }
                    lemma_link_presence(m1, root, lv1, p1 as int, i1, p2 as int, a, b);
                    if l1_present(m1, root, a) && pte_ppn(entry_at(m1, root, a)) == p1 {
                        assert(pte_valid(entry_at(m1, root, i0)));
                        assert(a == i0);
                    }
                }
            }
            assert forall|a: int| 0 <= a < 512 implies #[trigger] l1_present(m2, root, a) == (l1_present(m0, root, a)
                || a == i0) by {
                assert(l2_present(m2, root, a, 0) == (l2_present(m0, root, a, 0) || (a == i0 && 0 == i1)));
            }
            assert(present1(m2, root) =~= present1(m0, root).insert(i0));
            assert(present2(m2, root) =~= present2(m0, root).insert((i0, i1)));
            assert forall|a: int| 0 <= a < m0.len() && !in_tables(lv2, a) implies #[trigger] m2[a] == m0[a] by {
                if in_tables(lv1, a) {
                    let p = choose|p: int| #[trigger] lv1.dom().contains(p) && p * PAGE_SIZE <= a < p * PAGE_SIZE + PAGE_SIZE;
                    assert(lv2.dom().contains(p));
                }
                assert(m1[a] == m0[a]);
            }
        }
        let _len = mem.len();
        Some(p2 * PAGE_SIZE + idxs[2] * 8)
    }

    /// Maps `vpn` to page `ppn` with `flags` and the valid bit, creating the
    /// missing tables from frames of `allocator`; `vpn` must not be mapped yet.
    pub fn map(
        &mut self,
        vpn: VirtPageNum,
        ppn: PhysPageNum,
        flags: PTEFlags,
        allocator: &mut StackFrameAllocator,
        mem: &mut [u8],
    )
        requires
            old(self).wf(old(mem)@, *old(allocator)),
            old(allocator).available() >= missing_tables(old(mem)@, old(self).root(), vpn.0 as int),
            ppn.0 <= PPN_MASK,
            mapping(old(mem)@, old(self).root(), vpn.0 as int) is None,
        ensures
            final(self).wf(final(mem)@, *final(allocator)),
            final(self).root() == old(self).root(),
            final(allocator).limit() == old(allocator).limit(),
            final(allocator).available() == old(allocator).available() - missing_tables(
                old(mem)@,
                old(self).root(),
                vpn.0 as int,
            ),
            forall|p: usize| old(allocator).in_use(p) ==> #[trigger] final(allocator).in_use(p),
            final(mem)@.len() == old(mem)@.len(),
            remapped(
                old(mem)@,
                final(mem)@,
                final(self).root(),
                vpn.0 as int,
                pte_bits(ppn.0 as u64, flags.bits | PTE_V),
            ),
            present1(final(mem)@, final(self).root()) == present1(old(mem)@, old(self).root()).insert(
                vpn_index(vpn.0 as int, 0),
            ),
            present2(final(mem)@, final(self).root()) == present2(old(mem)@, old(self).root()).insert(
                (vpn_index(vpn.0 as int, 0), vpn_index(vpn.0 as int, 1)),
            ),
            forall|p: int|
                #[trigger] final(self).levels().dom().contains(p) ==> old(self).levels().dom().contains(p)
                    || !frame_used(*old(allocator), p),
            forall|p: int| #[trigger] old(self).levels().dom().contains(p) ==> final(self).levels().dom().contains(p),
            forall|a: int|
                0 <= a < old(mem)@.len() && !in_tables(final(self).levels(), a) ==> #[trigger] final(mem)@[a] == old(
                    mem,
                )@[a],
    {
        let a = match self.find_pte_create(vpn, allocator, mem) {
            Some(a) => a,
            None => {
                proof {
                    assert(false);
                }
                0
            },
        };
        let entry = PageTableEntry::new(ppn, PTEFlags { bits: flags.bits | PTE_V });
        let ghost m1 = mem@;
        write_u64(mem, a, entry.bits);
        proof {
            lemma_leaf_write(m1, self.root(), self.levels(), vpn.0 as int, entry.bits);
            lemma_placed_walk(m1, self.root(), self.levels(), vpn.0 as int);
            let p2 = walk_tables(m1, self.root(), vpn.0 as int).1->0;
            assert forall|b: int| 0 <= b < m1.len() && !in_tables(self.levels(), b) implies #[trigger] mem@[b] == m1[b] by {
                if a <= b < a + 8 {
                    assert(self.levels().dom().contains(p2));
                } else {
                    lemma_splice_outside(m1, a as int, entry.bits, b);
                }
            }
            assert forall|w: int| 0 <= w && !same_slot(vpn.0 as int, w) implies #[trigger] mapping(mem@, self.root(), w)
                == mapping(old(mem)@, old(self).root(), w) by {
                lemma_leaf_write_keeps_mappings(m1, self.root(), self.levels(), vpn.0 as int, entry.bits, w);
                assert(mapping(m1, self.root(), w) == mapping(old(mem)@, old(self).root(), w));
            }
        }
    }

    /// Clears the entry of `vpn`, which must be mapped.
    pub fn unmap(&mut self, vpn: VirtPageNum, mem: &mut [u8])
        requires
            old(self).placed(old(mem)@),
            mapping(old(mem)@, old(self).root(), vpn.0 as int) is Some,
        ensures
            final(self).placed(final(mem)@),
            final(self).root() == old(self).root(),
            final(self).levels() == old(self).levels(),
            final(self).owned() == old(self).owned(),
            final(mem)@.len() == old(mem)@.len(),
            remapped(old(mem)@, final(mem)@, final(self).root(), vpn.0 as int, 0),
            present1(final(mem)@, final(self).root()) == present1(old(mem)@, old(self).root()),
            present2(final(mem)@, final(self).root()) == present2(old(mem)@, old(self).root()),
            final(mem)@ == splice(
                old(mem)@,
                leaf_entry(old(mem)@, old(self).root(), vpn.0 as int)->0,
                u64_bytes(0),
            ),
    {
        proof {
            lemma_placed_walk(mem@, self.root(), self.levels(), vpn.0 as int);
        }
        let a = match self.find_pte(vpn, mem) {
            Some(a) => a,
            None => {
                proof {
                    assert(false);
                }
                0
            },
        };
        let ghost m1 = mem@;
        write_u64(mem, a, 0);
        proof {
            lemma_leaf_write(m1, self.root(), self.levels(), vpn.0 as int, 0);
            assert forall|w: int| 0 <= w && !same_slot(vpn.0 as int, w) implies #[trigger] mapping(mem@, self.root(), w)
                == mapping(m1, self.root(), w) by {
                lemma_leaf_write_keeps_mappings(m1, self.root(), self.levels(), vpn.0 as int, 0, w);
            }
        }
    }

    /// The address of the last-level entry of `vpn`, or `None` where an entry
    /// on the way is invalid.
    fn find_pte(&self, vpn: VirtPageNum, mem: &[u8]) -> (r: Option<usize>)
        requires
            walk_in(mem@, self.root(), vpn.0 as int),
        ensures
            match r {
                Some(a) => leaf_entry(mem@, self.root(), vpn.0 as int) == Some(a as int),
                None => leaf_entry(mem@, self.root(), vpn.0 as int) is None,
            },
    {
        let _len = mem.len();
        let idxs = vpn.indexes();
        let root = self.root_ppn.0;
        let e0 = PageTableEntry { bits: read_u64(mem, root * PAGE_SIZE + idxs[0] * 8) };
        if !e0.is_valid() {
            return None;
        }
        let p1 = e0.ppn().0;
        let e1 = PageTableEntry { bits: read_u64(mem, p1 * PAGE_SIZE + idxs[1] * 8) };
        if !e1.is_valid() {
            return None;
        }
        let p2 = e1.ppn().0;
        Some(p2 * PAGE_SIZE + idxs[2] * 8)
    }

    /// A copy of the last-level entry of `vpn`, or `None` where an entry on
    /// the way is invalid.
    pub fn translate(&self, vpn: VirtPageNum, mem: &[u8]) -> (r: Option<PageTableEntry>)
        requires
            walk_in(mem@, self.root(), vpn.0 as int),
        ensures
            match leaf_value(mem@, self.root(), vpn.0 as int) {
                Some(e) => r matches Some(pte) && pte.bits == e,
                None => r is None,
            },
    {
        match self.find_pte(vpn, mem) {
            Some(a) => Some(PageTableEntry { bits: read_u64(mem, a) }),
            None => None,
        }
    }

    /// The physical address that virtual address `va` maps to, or `None`
    /// where an entry on the way is invalid.
    pub fn translate_va(&self, va: VirtAddr, mem: &[u8]) -> (r: Option<PhysAddr>)
        requires
            walk_in(mem@, self.root(), page_floor(va.0 as int)),
            leaf_value(mem@, self.root(), page_floor(va.0 as int)) matches Some(e) ==> pte_ppn(e) * PAGE_SIZE
                + PAGE_SIZE <= usize::MAX,
        ensures
            match leaf_value(mem@, self.root(), page_floor(va.0 as int)) {
                Some(e) => r matches Some(pa) && pa.0 == pte_ppn(e) * PAGE_SIZE + va.0 % PAGE_SIZE,
                None => r is None,
            },
    {
        match self.find_pte(va.floor(), mem) {
            Some(a) => {
                let pte = PageTableEntry { bits: read_u64(mem, a) };
                let ppn = pte.ppn();
                let offset = va.page_offset();
                Some(PhysAddr(ppn.0 * PAGE_SIZE + offset))
            },
            None => None,
        }
    }

    /// The `satp` value that selects this page table: Sv39 mode and the root page.
    pub fn token(&self) -> (r: usize)
        ensures
            r == token_of(self.root()),
    {
        let t: u64 = (8u64 << 60u64) | (self.root_ppn.0 as u64);
        t as usize
    }

    /// A page table that walks the tables of `satp`'s root page and owns none.
    pub fn from_token(satp: usize) -> (r: Self)
        ensures
            r.root() == root_of(satp),
            r.owned() == Seq::<usize>::empty(),
    {
        let root = ((satp as u64) & PPN_MASK) as usize;
        let levels: Ghost<Map<int, nat>> = Ghost(Map::empty());
        let r = Self { root_ppn: PhysPageNum(root), frames: Vec::new(), levels };
        proof {
            assert(r.owned() =~= Seq::<usize>::empty());
        }
        r
    }
}

/// Writing the last-level entry of `vpn` keeps the tables well placed, keeps
/// the way to the entry, and makes the entry read `x`.
proof fn lemma_leaf_write(mem: Seq<u8>, root: int, lv: Map<int, nat>, vpn: int, x: u64)
    requires
        tables_placed(mem, root, lv),
        0 <= vpn,
        leaf_entry(mem, root, vpn) is Some,
    ensures
        ({
            let m2 = splice(mem, leaf_entry(mem, root, vpn)->0, u64_bytes(x));
            &&& m2.len() == mem.len()
            &&& tables_placed(m2, root, lv)
            &&& leaf_entry(m2, root, vpn) == leaf_entry(mem, root, vpn)
            &&& leaf_value(m2, root, vpn) == Some(x)
            &&& present1(m2, root) == present1(mem, root)
            &&& present2(m2, root) == present2(mem, root)
        }),
{
    lemma_placed_walk(mem, root, lv, vpn);
    let (t1, t2) = walk_tables(mem, root, vpn);
    let p1 = t1->0;
    let p2 = t2->0;
    let i0 = vpn_index(vpn, 0);
    let i1 = vpn_index(vpn, 1);
    let i2 = vpn_index(vpn, 2);
    let m2 = splice(mem, p2 * PAGE_SIZE + i2 * 8, u64_bytes(x));
    lemma_write_entry(mem, p2, i2, x, root, i0);
    lemma_write_entry(mem, p2, i2, x, p1, i1);
    lemma_write_entry(mem, p2, i2, x, p2, i2);
    assert forall|p: int, i: int|
        lv.dom().contains(p) && lv[p] < 2 && 0 <= i < 512 && pte_valid(#[trigger] entry_at(m2, p, i)) implies {
        let q = pte_ppn(entry_at(m2, p, i)) as int;
        lv.dom().contains(q) && lv[q] == lv[p] + 1
    } by {
        lemma_write_entry(mem, p2, i2, x, p, i);
    }
    assert forall|p: int, i: int, q: int, j: int|
        lv.dom().contains(p) && lv[p] < 2 && 0 <= i < 512 && pte_valid(#[trigger] entry_at(m2, p, i))
            && lv.dom().contains(q) && lv[q] < 2 && 0 <= j < 512 && pte_valid(#[trigger] entry_at(m2, q, j))
            && pte_ppn(entry_at(m2, p, i)) == pte_ppn(entry_at(m2, q, j)) implies p == q && i == j by {
        lemma_write_entry(mem, p2, i2, x, p, i);
        lemma_write_entry(mem, p2, i2, x, q, j);
    }
    assert forall|p: int| #[trigger] lv.dom().contains(p) implies page_in(m2, p) && lv[p] <= 2 by {}
    assert forall|a: int, b: int| 0 <= a < 512 && 0 <= b < 512 implies #[trigger] l2_present(m2, root, a, b)
        == l2_present(mem, root, a, b) by {
        lemma_write_entry(mem, p2, i2, x, root, a);
        if pte_valid(entry_at(mem, root, a)) {
            lemma_write_entry(mem, p2, i2, x, pte_ppn(entry_at(mem, root, a)) as int, b);
        }
    }
    assert forall|a: int| 0 <= a < 512 implies #[trigger] l1_present(m2, root, a) == l1_present(mem, root, a) by {
        lemma_write_entry(mem, p2, i2, x, root, a);
    }
    assert(present1(m2, root) =~= present1(mem, root));
    assert(present2(m2, root) =~= present2(mem, root));
}

/// Pointing an invalid entry of a table of level 0 or 1 to a zeroed frame that
/// is no table changes no page's mapping.
proof fn lemma_link_keeps_mappings(mem: Seq<u8>, root: int, lv: Map<int, nat>, t: int, i: int, f: int, w: int)
    requires
        tables_placed(mem, root, lv),
        lv.dom().contains(t),
        lv[t] < 2,
        0 <= i < 512,
        !pte_valid(entry_at(mem, t, i)),
        !lv.dom().contains(f),
        page_in(mem, f),
        0 <= f <= PPN_MASK,
        0 <= w,
    ensures
        mapping(
            splice(zero_page(mem, f), t * PAGE_SIZE + i * 8, u64_bytes(pte_bits(f as u64, PTE_V))),
            root,
            w,
        ) == mapping(mem, root, w),
{
    let nb = pte_bits(f as u64, PTE_V);
    let m1 = zero_page(mem, f);
    let m2 = splice(m1, t * PAGE_SIZE + i * 8, u64_bytes(nb));
    lemma_pte_fields(f as u64, PTE_V);
    assert(1u8 & 1u8 == 1u8) by (bit_vector);
    assert(0u64 & 1u64 == 0u64) by (bit_vector);
    lemma_placed_walk(mem, root, lv, w);
    let i0 = vpn_index(w, 0);
    let i1 = vpn_index(w, 1);
    let i2 = vpn_index(w, 2);
    assert(page_in(mem, root));
    assert(page_in(mem, t));
    lemma_zero_page_entry(mem, f, root, i0);
    lemma_write_entry(m1, t, i, nb, root, i0);
    if root == t && i0 == i {
        lemma_zero_page_entry(mem, f, f, i1);
        lemma_write_entry(m1, t, i, nb, f, i1);
    } else if pte_valid(entry_at(mem, root, i0)) {
        let p1 = pte_ppn(entry_at(mem, root, i0)) as int;
        lemma_zero_page_entry(mem, f, p1, i1);
        lemma_write_entry(m1, t, i, nb, p1, i1);
        if p1 == t && i1 == i {
            lemma_zero_page_entry(mem, f, f, i2);
            lemma_write_entry(m1, t, i, nb, f, i2);
        } else if pte_valid(entry_at(mem, p1, i1)) {
            let p2 = pte_ppn(entry_at(mem, p1, i1)) as int;
            lemma_zero_page_entry(mem, f, p2, i2);
            lemma_write_entry(m1, t, i, nb, p2, i2);
        }
    }
}

/// Pointing an invalid entry `i` of table `t` to a zeroed frame that is no
/// table makes that entry's table present and changes no other presence.
proof fn lemma_link_presence(mem: Seq<u8>, root: int, lv: Map<int, nat>, t: int, i: int, f: int, a: int, b: int)
    requires
        tables_placed(mem, root, lv),
        lv.dom().contains(t),
        lv[t] < 2,
        0 <= i < 512,
        !pte_valid(entry_at(mem, t, i)),
        !lv.dom().contains(f),
        page_in(mem, f),
        0 <= f <= PPN_MASK,
        0 <= a < 512,
        0 <= b < 512,
    ensures
        ({
            let m2 = splice(zero_page(mem, f), t * PAGE_SIZE + i * 8, u64_bytes(pte_bits(f as u64, PTE_V)));
            &&& l1_present(m2, root, a) == (l1_present(mem, root, a) || (t == root && a == i))
            &&& l2_present(m2, root, a, b) == (l2_present(mem, root, a, b) || (t != root && l1_present(mem, root, a)
                && pte_ppn(entry_at(mem, root, a)) == t && b == i))
        }),
{
    let nb = pte_bits(f as u64, PTE_V);
    let m1 = zero_page(mem, f);
    lemma_pte_fields(f as u64, PTE_V);
    assert(1u8 & 1u8 == 1u8) by (bit_vector);
    assert(0u64 & 1u64 == 0u64) by (bit_vector);
    assert(page_in(mem, root));
    assert(page_in(mem, t));
    lemma_zero_page_entry(mem, f, root, a);
    lemma_write_entry(m1, t, i, nb, root, a);
    if root == t && a == i {
        lemma_zero_page_entry(mem, f, f, b);
        lemma_write_entry(m1, t, i, nb, f, b);
    } else if pte_valid(entry_at(mem, root, a)) {
        let p1 = pte_ppn(entry_at(mem, root, a)) as int;
        assert(lv.dom().contains(p1));
        lemma_zero_page_entry(mem, f, p1, b);
        lemma_write_entry(m1, t, i, nb, p1, b);
    }
}

/// Writing the last-level entry of `vpn` changes the mapping of no page that
/// goes through another entry.
proof fn lemma_leaf_write_keeps_mappings(mem: Seq<u8>, root: int, lv: Map<int, nat>, vpn: int, x: u64, w: int)
    requires
        tables_placed(mem, root, lv),
        0 <= vpn,
        0 <= w,
        leaf_entry(mem, root, vpn) is Some,
        !same_slot(vpn, w),
    ensures
        mapping(splice(mem, leaf_entry(mem, root, vpn)->0, u64_bytes(x)), root, w) == mapping(mem, root, w),
{
    lemma_placed_walk(mem, root, lv, vpn);
    lemma_placed_walk(mem, root, lv, w);
    let (t1, t2) = walk_tables(mem, root, vpn);
    let p2 = t2->0;
    let i2 = vpn_index(vpn, 2);
    let i0 = vpn_index(w, 0);
    let i1 = vpn_index(w, 1);
    let j2 = vpn_index(w, 2);
    lemma_write_entry(mem, p2, i2, x, root, i0);
    if pte_valid(entry_at(mem, root, i0)) {
        let p1 = pte_ppn(entry_at(mem, root, i0)) as int;
        lemma_write_entry(mem, p2, i2, x, p1, i1);
        if pte_valid(entry_at(mem, p1, i1)) {
            let q2 = pte_ppn(entry_at(mem, p1, i1)) as int;
            lemma_write_entry(mem, p2, i2, x, q2, j2);
            if q2 == p2 && j2 == i2 {
                let v1 = t1->0;
                assert(pte_valid(entry_at(mem, v1, vpn_index(vpn, 1))));
                assert(v1 == p1 && vpn_index(vpn, 1) == i1);
                assert(pte_valid(entry_at(mem, root, vpn_index(vpn, 0))));
                assert(vpn_index(vpn, 0) == i0);
                assert(false);
            }
        }
    }
}

/// Zeroing a page that holds no table keeps the tables, the way to every
/// page, and every page's last-level entry.
pub proof fn lemma_zero_other_page(mem: Seq<u8>, root: int, lv: Map<int, nat>, f: int)
    requires
        tables_placed(mem, root, lv),
        !lv.dom().contains(f),
        page_in(mem, f),
    ensures
        tables_placed(zero_page(mem, f), root, lv),
        forall|w: int|
            0 <= w ==> #[trigger] walk_tables(zero_page(mem, f), root, w) == walk_tables(mem, root, w)
                && leaf_value(zero_page(mem, f), root, w) == leaf_value(mem, root, w),
        present1(zero_page(mem, f), root) == present1(mem, root),
        present2(zero_page(mem, f), root) == present2(mem, root),
{
    let z = zero_page(mem, f);
    assert forall|p: int, i: int| lv.dom().contains(p) && 0 <= i < 512 implies #[trigger] entry_at(z, p, i)
        == entry_at(mem, p, i) by {
        lemma_zero_page_entry(mem, f, p, i);
    }
    assert forall|p: int| #[trigger] lv.dom().contains(p) implies page_in(z, p) && lv[p] <= 2 by {}
    assert forall|w: int| 0 <= w implies #[trigger] walk_tables(z, root, w) == walk_tables(mem, root, w)
        && leaf_value(z, root, w) == leaf_value(mem, root, w) by {
        lemma_placed_walk(mem, root, lv, w);
        let i0 = vpn_index(w, 0);
        assert(entry_at(z, root, i0) == entry_at(mem, root, i0));
        if pte_valid(entry_at(mem, root, i0)) {
            let p1 = pte_ppn(entry_at(mem, root, i0)) as int;
            assert(entry_at(z, p1, vpn_index(w, 1)) == entry_at(mem, p1, vpn_index(w, 1)));
            if pte_valid(entry_at(mem, p1, vpn_index(w, 1))) {
                let p2 = pte_ppn(entry_at(mem, p1, vpn_index(w, 1))) as int;
                assert(entry_at(z, p2, vpn_index(w, 2)) == entry_at(mem, p2, vpn_index(w, 2)));
            }
        }
    }
    assert forall|a: int, b: int| 0 <= a < 512 && 0 <= b < 512 implies #[trigger] l2_present(z, root, a, b)
        == l2_present(mem, root, a, b) by {
        assert(entry_at(z, root, a) == entry_at(mem, root, a));
        if pte_valid(entry_at(mem, root, a)) {
            let p1 = pte_ppn(entry_at(mem, root, a)) as int;
            assert(entry_at(z, p1, b) == entry_at(mem, p1, b));
        }
    }
    assert forall|a: int| 0 <= a < 512 implies #[trigger] l1_present(z, root, a) == l1_present(mem, root, a) by {
        assert(entry_at(z, root, a) == entry_at(mem, root, a));
    }
    assert(present1(z, root) =~= present1(mem, root));
    assert(present2(z, root) =~= present2(mem, root));
}

/// Memory that agrees on every table page keeps the tables, the way to every
/// page and every page's last-level entry.
pub proof fn lemma_same_tables(m0: Seq<u8>, m1: Seq<u8>, root: int, lv: Map<int, nat>)
    requires
        tables_placed(m0, root, lv),
        m1.len() == m0.len(),
        forall|a: int|
            0 <= a < m0.len() && (exists|p: int| #[trigger] lv.dom().contains(p) && p * PAGE_SIZE <= a < p * PAGE_SIZE + PAGE_SIZE)
                ==> #[trigger] m1[a] == m0[a],
    ensures
        tables_placed(m1, root, lv),
        forall|w: int| 0 <= w ==> #[trigger] leaf_value(m1, root, w) == leaf_value(m0, root, w),
        present1(m1, root) == present1(m0, root),
        present2(m1, root) == present2(m0, root),
{
    assert forall|p: int, i: int| lv.dom().contains(p) && 0 <= i < 512 implies #[trigger] entry_at(m1, p, i)
        == entry_at(m0, p, i) by {
        let a = p * PAGE_SIZE + i * 8;
        assert(page_in(m0, p));
        assert forall|k: int| 0 <= k < 8 implies #[trigger] m1.subrange(a, a + 8)[k] == m0.subrange(a, a + 8)[k] by {
            assert(lv.dom().contains(p) && p * PAGE_SIZE <= a + k < p * PAGE_SIZE + PAGE_SIZE);
            assert(m1[a + k] == m0[a + k]);
        }
        assert(m1.subrange(a, a + 8) =~= m0.subrange(a, a + 8));
    }
    assert forall|p: int| #[trigger] lv.dom().contains(p) implies page_in(m1, p) && lv[p] <= 2 by {}
    assert forall|w: int| 0 <= w implies #[trigger] leaf_value(m1, root, w) == leaf_value(m0, root, w) by {
        lemma_placed_walk(m0, root, lv, w);
        let i0 = vpn_index(w, 0);
        assert(entry_at(m1, root, i0) == entry_at(m0, root, i0));
        if pte_valid(entry_at(m0, root, i0)) {
            let p1 = pte_ppn(entry_at(m0, root, i0)) as int;
            assert(entry_at(m1, p1, vpn_index(w, 1)) == entry_at(m0, p1, vpn_index(w, 1)));
            if pte_valid(entry_at(m0, p1, vpn_index(w, 1))) {
                let p2 = pte_ppn(entry_at(m0, p1, vpn_index(w, 1))) as int;
                assert(entry_at(m1, p2, vpn_index(w, 2)) == entry_at(m0, p2, vpn_index(w, 2)));
            }
        }
    }
    assert forall|a: int, b: int| 0 <= a < 512 && 0 <= b < 512 implies #[trigger] l2_present(m1, root, a, b)
        == l2_present(m0, root, a, b) by {
        assert(entry_at(m1, root, a) == entry_at(m0, root, a));
        if pte_valid(entry_at(m0, root, a)) {
            let p1 = pte_ppn(entry_at(m0, root, a)) as int;
            assert(entry_at(m1, p1, b) == entry_at(m0, p1, b));
        }
    }
    assert forall|a: int| 0 <= a < 512 implies #[trigger] l1_present(m1, root, a) == l1_present(m0, root, a) by {
        assert(entry_at(m1, root, a) == entry_at(m0, root, a));
    }
    assert(present1(m1, root) =~= present1(m0, root));
    assert(present2(m1, root) =~= present2(m0, root));
}

/// A page number is, below `VPN_LIMIT`, the number its three indexes spell.
proof fn lemma_slot_number(v: int)
    requires
        0 <= v,
    ensures
        v % (VPN_LIMIT as int) == vpn_index(v, 0) * 262144 + vpn_index(v, 1) * 512 + vpn_index(v, 2),
{
    assert(v % 134217728 == ((v / 262144) % 512) * 262144 + ((v / 512) % 512) * 512 + v % 512) by (nonlinear_arith)
        requires
            0 <= v,
    {
        let q = v / 134217728;
        let r = v % 134217728;
        assert(v == q * 134217728 + r && 0 <= r < 134217728);
        assert(v / 262144 == q * 512 + r / 262144);
        assert(v / 512 == q * 262144 + r / 512);
        assert(v % 512 == r % 512);
        assert((v / 262144) % 512 == r / 262144);
        assert((v / 512) % 512 == (r / 512) % 512);
        assert(r == (r / 262144) * 262144 + ((r / 512) % 512) * 512 + r % 512);
    }
}

/// Pages less than `VPN_LIMIT` apart that differ go through different entries.
pub proof fn lemma_distinct_slots(v: int, w: int)
    requires
        0 <= v,
        0 <= w,
        v != w,
        v - w < VPN_LIMIT,
        w - v < VPN_LIMIT,
    ensures
        !same_slot(v, w),
{
    lemma_slot_number(v);
    lemma_slot_number(w);
    if same_slot(v, w) {
        assert(v % 134217728 == w % 134217728);
        assert(false) by (nonlinear_arith)
            requires
                0 <= v,
                0 <= w,
                v != w,
                v - w < 134217728,
                w - v < 134217728,
                v % 134217728 == w % 134217728,
        ;
    }
}

/// Some page of `[start, end)` goes through the same entries as page `w`.
#[verifier::opaque]
pub open spec fn slot_taken(start: int, end: int, w: int) -> bool {
    exists|u: int| start <= u < end && #[trigger] same_slot(u, w)
}

/// A page below `VPN_LIMIT` shares its entries with no other page of a range
/// below `VPN_LIMIT`.
pub proof fn lemma_slot_free(start: int, end: int, w: int)
    requires
        0 <= start,
        end <= VPN_LIMIT,
        0 <= w < VPN_LIMIT,
        !(start <= w < end),
    ensures
        !slot_taken(start, end, w),
{
    reveal(slot_taken);
    if slot_taken(start, end, w) {
        let u = choose|u: int| start <= u < end && #[trigger] same_slot(u, w);
        lemma_distinct_slots(u, w);
    }
}

/// The tables missing on the way to `w` are those of the entries whose
/// tables are not present.
pub proof fn lemma_missing_present(mem: Seq<u8>, root: int, w: int)
    requires
        0 <= w,
    ensures
        missing_tables(mem, root, w) == if !present1(mem, root).contains(vpn_index(w, 0)) {
            2int
        } else if !present2(mem, root).contains((vpn_index(w, 0), vpn_index(w, 1))) {
            1int
        } else {
            0int
        },
{
    let a = vpn_index(w, 0);
    let b = vpn_index(w, 1);
    assert(present1(mem, root).contains(a) == l1_present(mem, root, a));
    assert(present2(mem, root).contains((a, b)) == l2_present(mem, root, a, b));
}

/// Mapping pages never gives frames back.
pub proof fn lemma_tables_needed_nonneg(p1: Set<int>, p2: Set<(int, int)>, s: int, e: int)
    ensures
        tables_needed(p1, p2, s, e) >= 0,
    decreases e - s,
{
    reveal(tables_needed);
    if s < e {
        lemma_tables_needed_nonneg(p1.insert(vpn_index(s, 0)), p2.insert((vpn_index(s, 0), vpn_index(s, 1))), s + 1, e);
    }
}

/// Unmapping a page right after mapping it leaves every page mapped as it was
/// before the mapping.
pub proof fn law_unmap_after_map(m0: Seq<u8>, m1: Seq<u8>, m2: Seq<u8>, root: int, vpn: int, e: u64)
    requires
        0 <= vpn,
        mapping(m0, root, vpn) is None,
        remapped(m0, m1, root, vpn, e),
        remapped(m1, m2, root, vpn, 0),
    ensures
        forall|w: int| 0 <= w ==> #[trigger] mapping(m2, root, w) == mapping(m0, root, w),
{
    assert(0u64 & 1u64 == 0u64) by (bit_vector);
    assert forall|w: int| 0 <= w implies #[trigger] mapping(m2, root, w) == mapping(m0, root, w) by {
        if same_slot(vpn, w) {
            assert(walk_tables(m2, root, w) == walk_tables(m2, root, vpn));
            assert(walk_tables(m0, root, w) == walk_tables(m0, root, vpn));
        } else {
            assert(mapping(m2, root, w) == mapping(m1, root, w));
        }
    }
}

/// The `satp` value of a root page selects that page again.
pub proof fn law_token_round_trip(root: int)
    requires
        0 <= root <= PPN_MASK,
        root <= usize::MAX,
    ensures
        root_of(token_of(root)) == root,
{
    let r = root as u64;
    let u = root as usize;
    assert(r <= 0xfff_ffff_ffffu64 && u == r);
    assert((((((8u64 << 60u64) | r) as usize) as u64) & 0xfff_ffff_ffffu64) as usize == u) by (bit_vector)
        requires
            r <= 0xfff_ffff_ffffu64,
            u == r,
    ;
}

/// How many pages the `len` bytes at virtual address `ptr` touch.
pub open spec fn pages_touched(ptr: int, len: int) -> int {
    if len <= 0 {
        0
    } else {
        (ptr + len - 1) / PAGE_SIZE as int - ptr / PAGE_SIZE as int + 1
    }
}

/// The physical bytes, as `[start, end)`, that the part on its `k`-th page of
/// the `len` bytes at virtual address `ptr` occupies.
pub open spec fn buffer_piece(mem: Seq<u8>, root: int, ptr: int, len: int, k: int) -> (int, int) {
    let v = ptr / PAGE_SIZE as int + k;
    let vs = if k == 0 {
        ptr
    } else {
        v * PAGE_SIZE
    };
    let ve = if ptr + len < (v + 1) * PAGE_SIZE {
        ptr + len
    } else {
        (v + 1) * PAGE_SIZE
    };
    let f = frame_of(mem, root, v);
    (f * PAGE_SIZE + vs - v * PAGE_SIZE, f * PAGE_SIZE + ve - v * PAGE_SIZE)
}

/// The walk to page `v` stays inside `mem` and reaches a last-level entry,
/// whose frame has addresses.
pub open spec fn page_walkable(mem: Seq<u8>, root: int, v: int) -> bool {
    &&& walk_in(mem, root, v)
    &&& leaf_value(mem, root, v) is Some
    &&& frame_of(mem, root, v) * PAGE_SIZE + PAGE_SIZE <= usize::MAX
}

/// The byte that virtual address `va` reaches through the tables of `root`.
pub open spec fn user_byte(mem: Seq<u8>, root: int, va: int) -> u8 {
    mem[frame_of(mem, root, va / PAGE_SIZE as int) * PAGE_SIZE + va % PAGE_SIZE as int]
}

/// Facts of division by the page size.
proof fn lemma_page_div(v: int, x: int)
    requires
        0 <= v,
        v * PAGE_SIZE <= x < (v + 1) * PAGE_SIZE,
    ensures
        x / PAGE_SIZE as int == v,
        x % PAGE_SIZE as int == x - v * PAGE_SIZE,
{
    assert(x / 4096 == v && x % 4096 == x - v * 4096) by (nonlinear_arith)
        requires
            0 <= v,
            v * 4096 <= x < (v + 1) * 4096,
    ;
}

/// A page starts before byte `e` exactly when its number is at most that of
/// the page of byte `e - 1`.
proof fn lemma_page_before(x: int, e: int)
    requires
        0 <= x,
        1 <= e,
    ensures
        (x * PAGE_SIZE < e) == (x <= (e - 1) / PAGE_SIZE as int),
{
    let q = (e - 1) / 4096;
    assert(0 <= q && q * 4096 <= e - 1 < (q + 1) * 4096) by (nonlinear_arith)
        requires
            1 <= e,
            q == (e - 1) / 4096,
    ;
    if x <= q {
        assert(x * 4096 <= q * 4096) by (nonlinear_arith)
            requires
                x <= q,
        ;
    } else {
        assert(x * 4096 >= (q + 1) * 4096) by (nonlinear_arith)
            requires
                x >= q + 1,
        ;
    }
}

/// The physical byte ranges that the user buffer of `len` bytes at virtual
/// address `ptr` occupies under the page table of `token`, one per page it
/// touches, in order.
pub fn translated_byte_buffer(token: usize, ptr: usize, len: usize, mem: &[u8]) -> (r: Vec<(usize, usize)>)
    requires
        ptr + len + PAGE_SIZE <= usize::MAX,
        forall|k: int|
            0 <= k < pages_touched(ptr as int, len as int) ==> #[trigger] page_walkable(
                mem@,
                root_of(token),
                ptr as int / PAGE_SIZE as int + k,
            ),
    ensures
        r@.len() == pages_touched(ptr as int, len as int),
        forall|k: int|
            0 <= k < r@.len() ==> (#[trigger] r@[k]).0 == buffer_piece(mem@, root_of(token), ptr as int, len as int, k).0
                && r@[k].1 == buffer_piece(mem@, root_of(token), ptr as int, len as int, k).1,
{
    let page_table = PageTable::from_token(token);
    let end = ptr + len;
    let mut start = ptr;
    let mut v: Vec<(usize, usize)> = Vec::new();
    let ghost p0 = ptr as int / PAGE_SIZE as int;
    let ghost n = pages_touched(ptr as int, len as int);
    let ghost root = root_of(token);
    proof {
        if len > 0 {
            lemma_page_div(p0, ptr as int);
            lemma_page_before(p0, end as int);
        }
    }
    while start < end
        invariant
            end == ptr + len,
            ptr + len + PAGE_SIZE <= usize::MAX,
            page_table.root() == root,
            p0 == ptr as int / PAGE_SIZE as int,
            n == pages_touched(ptr as int, len as int),
            0 <= v@.len() <= n,
            start == if v@.len() == 0 {
                ptr as int
            } else if (p0 + v@.len()) * PAGE_SIZE < end {
                (p0 + v@.len()) * PAGE_SIZE
            } else {
                end as int
            },
            (v@.len() < n) == (start < end),
            forall|k: int| 0 <= k < n ==> #[trigger] page_walkable(mem@, root, p0 + k),
            forall|k: int|
                0 <= k < v@.len() ==> (#[trigger] v@[k]).0 == buffer_piece(mem@, root, ptr as int, len as int, k).0
                    && v@[k].1 == buffer_piece(mem@, root, ptr as int, len as int, k).1,
        decreases end - start,
    {
        let ghost k = v@.len() as int;
        let ghost pv = p0 + k;
        proof {
            assert(0 <= p0);
            if k == 0 {
                lemma_page_div(p0, ptr as int);
            } else {
                lemma_page_div(pv, pv * PAGE_SIZE);
            }
            assert(page_walkable(mem@, root, p0 + k));
        }
        let start_va = VirtAddr(start);
        let vpn = start_va.floor();
        proof {
            assert(vpn.0 == pv);
        }
        let ppn = match page_table.translate(vpn, mem) {
            Some(e) => e.ppn(),
            None => {
                proof {
                    assert(false);
                }
                PhysPageNum(0)
            },
        };
        let next = VirtPageNum(vpn.0 + 1);
        let mut end_va = VirtAddr(next.0 * PAGE_SIZE);
        if end < end_va.0 {
            end_va = VirtAddr(end);
        }
        proof {
            assert(ppn.0 == frame_of(mem@, root, pv));
            if end_va.0 < (pv + 1) * PAGE_SIZE {
                lemma_page_div(pv, end_va.0 as int);
            } else {
                lemma_page_div(pv + 1, end_va.0 as int);
            }
            lemma_page_div(pv, start as int);
            lemma_page_before(pv + 1, end as int);
        }
        if end_va.page_offset() == 0 {
            v.push((ppn.0 * PAGE_SIZE + start_va.page_offset(), ppn.0 * PAGE_SIZE + PAGE_SIZE));
        } else {
            v.push((ppn.0 * PAGE_SIZE + start_va.page_offset(), ppn.0 * PAGE_SIZE + end_va.page_offset()));
        }
        start = end_va.0;
    }
    v
}

/// The physical address that user address `ptr` reaches under the page table
/// of `token`.
pub fn translated_refmut(token: usize, ptr: usize, mem: &[u8]) -> (r: usize)
    requires
        page_walkable(mem@, root_of(token), ptr as int / PAGE_SIZE as int),
    ensures
        r == frame_of(mem@, root_of(token), ptr as int / PAGE_SIZE as int) * PAGE_SIZE + ptr as int % PAGE_SIZE as int,
{
    let page_table = PageTable::from_token(token);
    match page_table.translate_va(VirtAddr(ptr), mem) {
        Some(pa) => pa.0,
        None => {
            proof {
                assert(false);
            }
            0
        },
    }
}

/// Byte `va` reaches, through the tables of `root`, a byte of `mem`.
pub open spec fn byte_readable(mem: Seq<u8>, root: int, va: int) -> bool {
    &&& page_walkable(mem, root, va / PAGE_SIZE as int)
    &&& frame_of(mem, root, va / PAGE_SIZE as int) * PAGE_SIZE + (va % PAGE_SIZE as int) < mem.len()
}

/// The bytes from `ptr` up to `ptr + n` can be read, and the last is zero.
pub open spec fn str_ends_at(mem: Seq<u8>, root: int, ptr: int, n: int) -> bool {
    &&& 0 <= n
    &&& ptr + n <= usize::MAX
    &&& forall|i: int| 0 <= i <= n ==> #[trigger] byte_readable(mem, root, ptr + i)
    &&& user_byte(mem, root, ptr + n) == 0
}

/// Appends `c` to `s`, by `String::push`.
#[verifier::external_body]
fn string_push(s: &mut String, c: char)
    ensures
        final(s)@ == old(s)@.push(c),
{
    s.push(c);
}

/// The zero-terminated string at user address `ptr` under the page table of
/// `token`, each byte taken as the character of that code; the zero must be
/// reachable.
pub fn translated_str(token: usize, ptr: usize, mem: &[u8]) -> (r: String)
    requires
        exists|n: int| str_ends_at(mem@, root_of(token), ptr as int, n),
    ensures
        str_ends_at(mem@, root_of(token), ptr as int, r@.len() as int),
        forall|i: int| 0 <= i < r@.len() ==> #[trigger] user_byte(mem@, root_of(token), ptr + i) != 0,
        r@ == Seq::new(r@.len(), |i: int| user_byte(mem@, root_of(token), ptr + i) as char),
{
    let page_table = PageTable::from_token(token);
    let ghost root = root_of(token);
    let ghost n = choose|n: int| str_ends_at(mem@, root, ptr as int, n);
    let mut string = String::new();
    let mut va = ptr;
    loop
        invariant_except_break
            ptr <= va <= ptr + n,
        invariant
            str_ends_at(mem@, root, ptr as int, n),
            page_table.root() == root,
            ptr <= va,
            string@.len() == va - ptr,
            forall|i: int| 0 <= i < va - ptr ==> #[trigger] user_byte(mem@, root, ptr + i) != 0,
            string@ == Seq::new(string@.len(), |i: int| user_byte(mem@, root, ptr + i) as char),
        ensures
            user_byte(mem@, root, va as int) == 0,
            ptr <= va <= ptr + n,
        decreases ptr + n - va,
    {
        proof {
            assert(byte_readable(mem@, root, ptr + (va - ptr)));
        }
        let pa = match page_table.translate_va(VirtAddr(va), mem) {
            Some(pa) => pa,
            None => {
                proof {
                    assert(false);
                }
                PhysAddr(0)
            },
        };
        let ch = mem[pa.0];
        if ch == 0 {
            break;
        }
        let ghost before = string@;
        string_push(&mut string, ch as char);
        proof {
            assert(ch == user_byte(mem@, root, ptr + (va - ptr)));
            assert(string@ =~= Seq::new(string@.len(), |i: int| user_byte(mem@, root, ptr + i) as char));
            assert(va < ptr + n);
        }
        va = va + 1;
    }
    proof {
        assert forall|i: int| 0 <= i <= string@.len() implies #[trigger] byte_readable(mem@, root, ptr + i) by {
            assert(byte_readable(mem@, root, ptr + i));
        }
    }
    string
}

/// The physical address that user address `va` reaches through the tables of `root`.
pub open spec fn user_addr(mem: Seq<u8>, root: int, va: int) -> int {
    frame_of(mem, root, va / PAGE_SIZE as int) * PAGE_SIZE + va % PAGE_SIZE as int
}

/// The aligned machine word at user address `va` reaches eight bytes of `mem`.
pub open spec fn word_writable(mem: Seq<u8>, root: int, va: int) -> bool {
    &&& 0 <= va
    &&& va % 8 == 0
    &&& page_walkable(mem, root, va / PAGE_SIZE as int)
    &&& user_addr(mem, root, va) + 8 <= mem.len()
}

/// `mem` with `value` stored, little-endian, in the word at user address `va`.
pub open spec fn user_word_written(mem: Seq<u8>, root: int, va: int, value: u64) -> Seq<u8> {
    splice(mem, user_addr(mem, root, va), u64_bytes(value))
}

/// Stores `value` in the word at user address `ptr` under the page table of `token`.
pub fn write_user_word(token: usize, ptr: usize, value: u64, mem: &mut [u8])
    requires
        word_writable(old(mem)@, root_of(token), ptr as int),
    ensures
        final(mem)@ == user_word_written(old(mem)@, root_of(token), ptr as int, value),
{
    let pa = translated_refmut(token, ptr, mem);
    write_u64(mem, pa, value);
}

/// The total length of the byte ranges `b`.
pub open spec fn ranges_len(b: Seq<(usize, usize)>) -> int
    decreases b.len(),
{
    if b.len() == 0 {
        0
    } else {
        ranges_len(b.drop_last()) + (b.last().1 - b.last().0)
    }
}

/// A user buffer, as the physical byte ranges `[start, end)` of its pieces.
pub struct UserBuffer {
    pub buffers: Vec<(usize, usize)>,
}

impl UserBuffer {
    /// The buffer made of `buffers`.
    pub fn new(buffers: Vec<(usize, usize)>) -> (r: Self)
        ensures
            r.buffers@ == buffers@,
    {
        Self { buffers }
    }

    /// The number of bytes of the buffer; no piece may end before it starts.
    pub fn len(&self) -> (r: usize)
        requires
            forall|i: int| 0 <= i < self.buffers@.len() ==> (#[trigger] self.buffers@[i]).0 <= self.buffers@[i].1,
            ranges_len(self.buffers@) <= usize::MAX,
        ensures
            r == ranges_len(self.buffers@),
    {
        let mut total: usize = 0;
        let mut i: usize = 0;
        while i < self.buffers.len()
            invariant
                i <= self.buffers@.len(),
                total == ranges_len(self.buffers@.subrange(0, i as int)),
                forall|j: int| 0 <= j < self.buffers@.len() ==> (#[trigger] self.buffers@[j]).0 <= self.buffers@[j].1,
                ranges_len(self.buffers@) <= usize::MAX,
            decreases self.buffers@.len() - i,
        {
            proof {
                assert(self.buffers@.subrange(0, i + 1).drop_last() =~= self.buffers@.subrange(0, i as int));
                lemma_ranges_len_prefix(self.buffers@, i as int + 1);
            }
            let (s, e) = self.buffers[i];
            total = total + (e - s);
            i = i + 1;
        }
        proof {
            assert(self.buffers@.subrange(0, i as int) =~= self.buffers@);
        }
        total
    }
}

/// A prefix of pieces that do not end before they start is no longer than the whole.
proof fn lemma_ranges_len_prefix(b: Seq<(usize, usize)>, k: int)
    requires
        0 <= k <= b.len(),
        forall|i: int| 0 <= i < b.len() ==> (#[trigger] b[i]).0 <= b[i].1,
    ensures
        ranges_len(b.subrange(0, k)) <= ranges_len(b),
    decreases b.len() - k,
{
    if k < b.len() {
        lemma_ranges_len_prefix(b, k + 1);
        assert(b.subrange(0, k + 1).drop_last() =~= b.subrange(0, k));
    } else {
        assert(b.subrange(0, k) =~= b);
    }
}

/// Eight zero bytes read as zero.
proof fn lemma_zero_u64(b: Seq<u8>, off: int)
    requires
        0 <= off,
        off + 8 <= b.len(),
        forall|k: int| off <= k < off + 8 ==> b[k] == 0,
    ensures
        u64_at(b, off) == 0,
{
    let z: u64 = 0;
    spec_u64_to_le_bytes_to_open(z);
    assert(z & 0xff == 0 && (z >> 8) & 0xff == 0 && (z >> 16) & 0xff == 0 && (z >> 24) & 0xff == 0
        && (z >> 32) & 0xff == 0 && (z >> 40) & 0xff == 0 && (z >> 48) & 0xff == 0 && (z >> 56)
        & 0xff == 0) by (bit_vector)
        requires
            z == 0,
    ;
    assert(spec_u64_to_le_bytes_open(z) =~= b.subrange(off, off + 8));
    lemma_auto_spec_u64_to_from_le_bytes();
}

/// The total length of the first `n` pieces of the `len` bytes at virtual
/// address `ptr`.
pub open spec fn pieces_total(mem: Seq<u8>, root: int, ptr: int, len: int, n: int) -> int
    decreases n,
{
    if n <= 0 {
        0
    } else {
        pieces_total(mem, root, ptr, len, n - 1) + (buffer_piece(mem, root, ptr, len, n - 1).1 - buffer_piece(
            mem,
            root,
            ptr,
            len,
            n - 1,
        ).0)
    }
}

/// The first `j` pieces reach from `ptr` to the end of the buffer or of its
/// `j`-th page, whichever comes first.
proof fn lemma_pieces_prefix(mem: Seq<u8>, root: int, ptr: int, len: int, j: int)
    requires
        0 <= ptr,
        0 < len,
        0 <= j <= pages_touched(ptr, len),
    ensures
        pieces_total(mem, root, ptr, len, j) == if j == 0 {
            0
        } else if ptr + len < (ptr / 4096 + j) * 4096 {
            len
        } else {
            (ptr / 4096 + j) * 4096 - ptr
        },
    decreases j,
{
    if j > 0 {
        lemma_pieces_prefix(mem, root, ptr, len, j - 1);
        let p0 = ptr / 4096;
        let q = (ptr + len - 1) / 4096;
        let v = p0 + j - 1;
        assert(p0 * 4096 <= ptr < p0 * 4096 + 4096) by (nonlinear_arith)
            requires
                p0 == ptr / 4096,
                0 <= ptr,
        ;
        assert(q * 4096 <= ptr + len - 1) by (nonlinear_arith)
            requires
                q == (ptr + len - 1) / 4096,
                0 <= ptr + len - 1,
        ;
        assert(v <= q);
        assert(v * 4096 <= q * 4096) by (nonlinear_arith)
            requires
                v <= q,
        ;
        assert((p0 + j) * 4096 == v * 4096 + 4096);
    }
}

/// The pieces of a user buffer cover exactly its bytes: their lengths add up
/// to `len`, the first starts at the physical byte of `ptr` and the last ends
/// just after the physical byte of `ptr + len - 1`.
pub proof fn law_buffer_pieces_cover(mem: Seq<u8>, root: int, ptr: int, len: int)
    requires
        0 <= ptr,
        0 <= len,
    ensures
        pieces_total(mem, root, ptr, len, pages_touched(ptr, len)) == len,
        len > 0 ==> buffer_piece(mem, root, ptr, len, 0).0 == frame_of(mem, root, ptr / 4096) * 4096 + ptr % 4096,
        len > 0 ==> buffer_piece(mem, root, ptr, len, pages_touched(ptr, len) - 1).1 == frame_of(
            mem,
            root,
            (ptr + len - 1) / 4096,
        ) * 4096 + (ptr + len - 1) % 4096 + 1,
{
    if len > 0 {
        let n = pages_touched(ptr, len);
        let p0 = ptr / 4096;
        let q = (ptr + len - 1) / 4096;
        assert(p0 * 4096 <= ptr < p0 * 4096 + 4096) by (nonlinear_arith)
            requires
                p0 == ptr / 4096,
                0 <= ptr,
        ;
        assert(q * 4096 <= ptr + len - 1 < q * 4096 + 4096) by (nonlinear_arith)
            requires
                q == (ptr + len - 1) / 4096,
                0 <= ptr + len - 1,
        ;
        assert(p0 <= q) by (nonlinear_arith)
            requires
                p0 * 4096 <= ptr,
                ptr + len - 1 < q * 4096 + 4096,
                ptr < p0 * 4096 + 4096,
                len > 0,
        ;
        assert(n == q - p0 + 1);
        lemma_pieces_prefix(mem, root, ptr, len, n);
        assert((p0 + n) * 4096 == q * 4096 + 4096);
        assert(ptr % 4096 == ptr - p0 * 4096);
        assert((ptr + len - 1) % 4096 == ptr + len - 1 - q * 4096);
    }
}

} // verus!
