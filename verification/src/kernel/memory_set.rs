//! Address spaces: areas of virtual pages mapped the same way.
use super::address::{page_ceil, page_floor, PhysAddr, PhysPageNum, VPNRange, VirtAddr, VirtPageNum};
use super::config::{MEMORY_END, PAGE_SIZE};
use super::frame_allocator::{frame_alloc, frame_dealloc, frame_given_back, FrameTracker, StackFrameAllocator};
use super::page_table::{
    frame_of, frames_fit, frame_used, in_tables, lemma_not_in_tables, lemma_page_offset_unique, page_in, lemma_distinct_slots, lemma_placed_walk, lemma_pte_fields, lemma_same_tables,
    PageTableEntry, lemma_missing_present, lemma_tables_needed_nonneg,
    lemma_used_page_in, lemma_zero_other_page, leaf_value, mapping, missing_tables, present1,
    present2, present_after, pte_bits, remapped, tables_needed, vpn_index, zero_page, PTEFlags, PageTable, PTE_V,
    slot_taken, lemma_slot_free, same_slot, PPN_MASK, PTE_R, PTE_X, VPN_LIMIT,
};
use vstd::prelude::*;

verus! {

/// How the pages of an area are mapped.
#[derive(PartialEq, Eq, Structural, Clone, Copy)]
pub enum MapType {
    /// Each virtual page maps to the physical page of the same number.
    Identical,
    /// Each virtual page gets a frame of its own.
    Framed,
}

/// Readable.
pub const MAP_R: u8 = 0x2;

/// Writable.
pub const MAP_W: u8 = 0x4;

/// Executable.
pub const MAP_X: u8 = 0x8;

/// Accessible from user mode.
pub const MAP_U: u8 = 0x10;

/// How the pages of an area may be accessed: a set of the `MAP_*` bits.
#[derive(PartialEq, Eq, Structural, Clone, Copy)]
pub struct MapPermission {
    pub bits: u8,
}

/// How many pages `len` bytes of data are copied to: at least one.
pub open spec fn data_pages(len: int) -> int {
    if len <= PAGE_SIZE {
        1
    } else {
        (len - 1) / PAGE_SIZE as int + 1
    }
}

/// How many bytes of `len` bytes of data go to their `k`-th page.
pub open spec fn chunk_len(len: int, k: int) -> int {
    if len - k * PAGE_SIZE < PAGE_SIZE {
        len - k * PAGE_SIZE
    } else {
        PAGE_SIZE as int
    }
}

/// Byte `a` is among those that the `k`-th page of `len` bytes of data, copied
/// to the pages from `lo` on, goes to.
pub open spec fn in_chunk(mem: Seq<u8>, root: int, lo: int, len: int, k: int, a: int) -> bool {
    frame_of(mem, root, lo + k) * PAGE_SIZE <= a < frame_of(mem, root, lo + k) * PAGE_SIZE + chunk_len(len, k)
}

/// An area: the virtual pages that hold `[start_va, end_va)`, how they are
/// mapped and accessed, and the frames given to them.
pub struct MapArea {
    pub vpn_range: VPNRange,
    pub data_frames: Vec<(VirtPageNum, FrameTracker)>,
    pub map_type: MapType,
    pub map_perm: MapPermission,
}

impl MapArea {
    /// The area of the pages that hold `[start_va, end_va)`, with no frame yet.
    pub fn new(start_va: VirtAddr, end_va: VirtAddr, map_type: MapType, map_perm: MapPermission) -> (r: Self)
        ensures
            r.vpn_range.start.0 == page_floor(start_va.0 as int),
            r.vpn_range.end.0 == page_ceil(end_va.0 as int),
            r.data_frames@.len() == 0,
            r.map_type == map_type,
            r.map_perm == map_perm,
    {
        let start_vpn: VirtPageNum = start_va.floor();
        let end_vpn: VirtPageNum = end_va.ceil();
        Self { vpn_range: VPNRange::new(start_vpn, end_vpn), data_frames: Vec::new(), map_type, map_perm }
    }

    /// The frames beyond the tables that mapping the area's pages takes: one
    /// per page for a framed area.
    pub open spec fn data_frames_needed(&self) -> int {
        if self.map_type == MapType::Framed && self.vpn_range.start.0 < self.vpn_range.end.0 {
            self.vpn_range.end.0 - self.vpn_range.start.0
        } else {
            0
        }
    }

    /// The page that page `w` of the area maps to, once mapped with the
    /// frames of `data_frames` from index `first` on.
    pub open spec fn target(&self, first: int, w: int) -> int {
        if self.map_type == MapType::Identical {
            w
        } else {
            self.data_frames@[first + w - self.vpn_range.start.0].1.ppn.0 as int
        }
    }

    /// The area's frames are handed out by `alloc`, hold no table of `lv`, and
    /// no two of them share a page or a frame.
    pub open spec fn frames_ok(&self, alloc: StackFrameAllocator, lv: Map<int, nat>) -> bool {
        &&& forall|i: int, j: int|
            0 <= i < j < self.data_frames@.len() ==> (#[trigger] self.data_frames@[i]).0 != (
            #[trigger] self.data_frames@[j]).0 && self.data_frames@[i].1.ppn != self.data_frames@[j].1.ppn
        &&& forall|i: int|
            0 <= i < self.data_frames@.len() ==> frame_used(alloc, (#[trigger] self.data_frames@[i]).1.ppn.0 as int)
                && !lv.dom().contains(self.data_frames@[i].1.ppn.0 as int)
    }

    /// Takes page `vpn` out of `page_table`; for a framed area, the page's
    /// frame, if the area holds one for it, is given back to `allocator`. The
    /// page must be mapped.
    pub fn unmap_one(
        &mut self,
        page_table: &mut PageTable,
        vpn: VirtPageNum,
        allocator: &mut StackFrameAllocator,
        mem: &mut [u8],
    )
        requires
            old(page_table).wf(old(mem)@, *old(allocator)),
            mapping(old(mem)@, old(page_table).root(), vpn.0 as int) is Some,
            old(self).frames_ok(*old(allocator), old(page_table).levels()),
        ensures
            final(page_table).wf(final(mem)@, *final(allocator)),
            final(page_table).root() == old(page_table).root(),
            final(page_table).levels() == old(page_table).levels(),
            final(mem)@.len() == old(mem)@.len(),
            remapped(old(mem)@, final(mem)@, final(page_table).root(), vpn.0 as int, 0),
            final(self).vpn_range == old(self).vpn_range,
            final(self).map_type == old(self).map_type,
            final(self).map_perm == old(self).map_perm,
            final(self).frames_ok(*final(allocator), final(page_table).levels()),
            ({
                let k = frame_index(old(self).data_frames@, vpn);
                if old(self).map_type == MapType::Framed && k < old(self).data_frames@.len() {
                    &&& final(self).data_frames@ == old(self).data_frames@.remove(k)
                    &&& frame_given_back(*old(allocator), *final(allocator), old(self).data_frames@[k].1.ppn.0)
                } else {
                    &&& final(self).data_frames@ == old(self).data_frames@
                    &&& *final(allocator) == *old(allocator)
                }
            }),
    {
        let ghost a0 = *allocator;
        let ghost df0 = self.data_frames@;
        let ghost s0 = *self;
        let ghost pt0 = *page_table;
        let ghost m0 = mem@;
        if self.map_type == MapType::Framed {
            let n = self.data_frames.len();
            let mut i: usize = 0;
            while i < n
                invariant
                    n == self.data_frames@.len(),
                    self.data_frames@ == df0,
                    *self == s0,
                    s0.data_frames@ == df0,
                    s0.map_type == MapType::Framed,
                    *page_table == pt0,
                    mem@ == m0,
                    *allocator == a0,
                    pt0 == *old(page_table),
                    m0 == old(mem)@,
                    a0 == *old(allocator),
                    s0 == *old(self),
                    pt0.wf(m0, a0),
                    mapping(m0, pt0.root(), vpn.0 as int) is Some,
                    s0.frames_ok(a0, pt0.levels()),
                    i <= n,
                    forall|j: int| 0 <= j < i ==> (#[trigger] self.data_frames@[j]).0 != vpn,
                decreases n - i,
            {
                if self.data_frames[i].0 == vpn {
                    proof {
                        lemma_frame_index(df0, vpn, i as int);
                    }
                    let (_, frame) = self.data_frames.remove(i);
                    frame_dealloc(allocator, frame.ppn);
                    proof {
                        let f = frame.ppn.0;
                        assert forall|p: int| #[trigger] page_table.levels().dom().contains(p) implies frame_used(
                            *allocator,
                            p,
                        ) by {
                            assert(frame_used(a0, p));
                            assert(p != f as int);
                        }
                        let df = self.data_frames@;
                        assert forall|x: int| 0 <= x < df.len() implies frame_used(*allocator, (#[trigger] df[x]).1.ppn.0 as int)
                            && !page_table.levels().dom().contains(df[x].1.ppn.0 as int) by {
                            if x < i {
                                assert(df[x] == df0[x]);
                            } else {
                                assert(df[x] == df0[x + 1]);
                            }
                        }
                        assert forall|x: int, y: int| 0 <= x < y < df.len() implies (#[trigger] df[x]).0 != (
                        #[trigger] df[y]).0 && df[x].1.ppn != df[y].1.ppn by {
                            let x0 = if x < i { x } else { x + 1 };
                            let y0 = if y < i { y } else { y + 1 };
                            assert(df[x] == df0[x0] && df[y] == df0[y0]);
                        }
                    }
                    page_table.unmap(vpn, mem);
                    return;
                }
                i += 1;
            }
            proof {
                lemma_frame_index(df0, vpn, n as int);
            }
        }
        page_table.unmap(vpn, mem);
    }

    /// Byte `a` lies in the frame of one of the area's pages, counting its
    /// frames from index `first` of `data_frames`.
    pub open spec fn in_frames(&self, first: int, a: int) -> bool {
        &&& self.map_type == MapType::Framed
        &&& exists|w: int|
            self.vpn_range.start.0 <= w < self.vpn_range.end.0 && #[trigger] self.target(first, w) * PAGE_SIZE <= a
                < self.target(first, w) * PAGE_SIZE + PAGE_SIZE
    }

    /// Maps page `vpn` in `page_table`: to the page of the same number for an
    /// identical area, to a new zeroed frame of `allocator` for a framed one.
    pub fn map_one(
        &mut self,
        page_table: &mut PageTable,
        vpn: VirtPageNum,
        allocator: &mut StackFrameAllocator,
        mem: &mut [u8],
    )
        requires
            old(page_table).wf(old(mem)@, *old(allocator)),
            old(self).map_type == MapType::Identical ==> vpn.0 <= PPN_MASK,
            mapping(old(mem)@, old(page_table).root(), vpn.0 as int) is None,
            old(allocator).available() >= missing_tables(old(mem)@, old(page_table).root(), vpn.0 as int) + if old(
                self,
            ).map_type == MapType::Framed {
                1int
            } else {
                0int
            },
        ensures
            final(page_table).wf(final(mem)@, *final(allocator)),
            final(page_table).root() == old(page_table).root(),
            final(allocator).limit() == old(allocator).limit(),
            final(allocator).available() == old(allocator).available() - missing_tables(
                old(mem)@,
                old(page_table).root(),
                vpn.0 as int,
            ) - if old(self).map_type == MapType::Framed {
                1int
            } else {
                0int
            },
            forall|p: usize| old(allocator).in_use(p) ==> #[trigger] final(allocator).in_use(p),
            final(mem)@.len() == old(mem)@.len(),
            final(self).vpn_range == old(self).vpn_range,
            final(self).map_type == old(self).map_type,
            final(self).map_perm == old(self).map_perm,
            present1(final(mem)@, final(page_table).root()) == present1(old(mem)@, old(page_table).root()).insert(
                vpn_index(vpn.0 as int, 0),
            ),
            present2(final(mem)@, final(page_table).root()) == present2(old(mem)@, old(page_table).root()).insert(
                (vpn_index(vpn.0 as int, 0), vpn_index(vpn.0 as int, 1)),
            ),
            forall|p: int|
                #[trigger] final(page_table).levels().dom().contains(p) ==> old(page_table).levels().dom().contains(p)
                    || !frame_used(*old(allocator), p),
            forall|p: int|
                #[trigger] old(page_table).levels().dom().contains(p) ==> final(page_table).levels().dom().contains(p),
            old(self).map_type == MapType::Identical ==> forall|a: int|
                0 <= a < old(mem)@.len() && !in_tables(final(page_table).levels(), a) ==> #[trigger] final(mem)@[a]
                    == old(mem)@[a],
            old(self).map_type == MapType::Identical ==> {
                &&& final(self).data_frames@ == old(self).data_frames@
                &&& remapped(
                    old(mem)@,
                    final(mem)@,
                    final(page_table).root(),
                    vpn.0 as int,
                    pte_bits(vpn.0 as u64, old(self).map_perm.bits | PTE_V),
                )
            },
            old(self).map_type == MapType::Framed ==> {
                let f = final(self).data_frames@.last().1.ppn.0;
                &&& final(self).data_frames@.len() == old(self).data_frames@.len() + 1
                &&& final(self).data_frames@.drop_last() == old(self).data_frames@
                &&& final(self).data_frames@.last().0 == vpn
                &&& !old(allocator).in_use(f)
                &&& final(allocator).in_use(f)
                &&& !final(page_table).levels().dom().contains(f as int)
                &&& forall|j: int| 0 <= j < PAGE_SIZE ==> #[trigger] final(mem)@[f * PAGE_SIZE + j] == 0
                &&& forall|a: int|
                    0 <= a < old(mem)@.len() && !in_tables(final(page_table).levels(), a) && !(f * PAGE_SIZE <= a < f
                        * PAGE_SIZE + PAGE_SIZE) ==> #[trigger] final(mem)@[a] == old(mem)@[a]
                &&& remapped(
                    old(mem)@,
                    final(mem)@,
                    final(page_table).root(),
                    vpn.0 as int,
                    pte_bits(f as u64, old(self).map_perm.bits | PTE_V),
                )
            },
    {
        let ghost m0 = mem@;
        let ghost a0 = *allocator;
        let ghost root = page_table.root();
        let ghost lv0 = page_table.levels();
        let ppn: PhysPageNum;
        if self.map_type == MapType::Identical {
            ppn = PhysPageNum(vpn.0);
        } else {
            let frame = match frame_alloc(allocator, mem) {
                Some(f) => f,
                None => {
                    proof {
                        assert(false);
                    }
                    FrameTracker { ppn: PhysPageNum(0) }
                },
            };
            let ghost f = frame.ppn.0 as int;
            proof {
                assert(mem@ =~= zero_page(m0, f));
                assert(!lv0.dom().contains(f)) by {
                    if lv0.dom().contains(f) {
                        assert(frame_used(a0, f));
                    }
                }
                assert(frame_used(*allocator, f));
                lemma_used_page_in(*allocator, mem@, f);
                lemma_zero_other_page(m0, root, lv0, f);
                assert forall|p: int| #[trigger] lv0.dom().contains(p) implies frame_used(*allocator, p) by {
                    assert(frame_used(a0, p));
                }
                assert(leaf_value(mem@, root, vpn.0 as int) == leaf_value(m0, root, vpn.0 as int));
                assert forall|w: int| 0 <= w implies #[trigger] mapping(mem@, root, w) == mapping(m0, root, w) by {
                    assert(leaf_value(mem@, root, w) == leaf_value(m0, root, w));
                }
            }
            ppn = frame.ppn;
            self.data_frames.push((vpn, frame));
        }
        let flags = PTEFlags { bits: self.map_perm.bits };
        let ghost m1 = mem@;
        page_table.map(vpn, ppn, flags, allocator, mem);
        proof {
            if self.map_type == MapType::Framed {
                let f = ppn.0 as int;
                assert(!page_table.levels().dom().contains(f));
                assert forall|j: int| 0 <= j < PAGE_SIZE implies #[trigger] mem@[f * PAGE_SIZE + j] == 0 by {
                    lemma_not_in_tables(page_table.levels(), f, f * PAGE_SIZE + j);
                    assert(m1[f * PAGE_SIZE + j] == 0);
                }
            }
        }
    }

    /// Maps every page of the area in `page_table`, one after the other; none
    /// may be mapped yet.
    #[verifier::rlimit(60)]
    pub fn map(&mut self, page_table: &mut PageTable, allocator: &mut StackFrameAllocator, mem: &mut [u8])
        requires
            old(page_table).wf(old(mem)@, *old(allocator)),
            old(self).vpn_range.end.0 - old(self).vpn_range.start.0 <= VPN_LIMIT,
            old(self).map_type == MapType::Identical ==> old(self).vpn_range.end.0 <= PPN_MASK + 1,
            forall|w: int|
                old(self).vpn_range.start.0 <= w < old(self).vpn_range.end.0 ==> #[trigger] mapping(
                    old(mem)@,
                    old(page_table).root(),
                    w,
                ) is None,
            old(allocator).available() >= tables_needed(
                present1(old(mem)@, old(page_table).root()),
                present2(old(mem)@, old(page_table).root()),
                old(self).vpn_range.start.0 as int,
                old(self).vpn_range.end.0 as int,
            ) + old(self).data_frames_needed(),
        ensures
            final(page_table).wf(final(mem)@, *final(allocator)),
            final(page_table).root() == old(page_table).root(),
            final(allocator).limit() == old(allocator).limit(),
            forall|p: usize| old(allocator).in_use(p) ==> #[trigger] final(allocator).in_use(p),
            final(mem)@.len() == old(mem)@.len(),
            final(self).vpn_range == old(self).vpn_range,
            final(self).map_type == old(self).map_type,
            final(self).map_perm == old(self).map_perm,
            forall|w: int|
                old(self).vpn_range.start.0 <= w < old(self).vpn_range.end.0 ==> #[trigger] mapping(
                    final(mem)@,
                    final(page_table).root(),
                    w,
                ) == Some(
                    pte_bits(final(self).target(old(self).data_frames@.len() as int, w) as u64, old(self).map_perm.bits | PTE_V),
                ),
            forall|w: int|
                0 <= w && !slot_taken(old(self).vpn_range.start.0 as int, old(self).vpn_range.end.0 as int, w)
                    ==> #[trigger] mapping(final(mem)@, final(page_table).root(), w) == mapping(
                    old(mem)@,
                    old(page_table).root(),
                    w,
                ),
            old(self).map_type == MapType::Identical ==> final(self).data_frames@ == old(self).data_frames@,
            forall|p: int|
                #[trigger] final(page_table).levels().dom().contains(p) ==> old(page_table).levels().dom().contains(p)
                    || !frame_used(*old(allocator), p),
            forall|p: int|
                #[trigger] old(page_table).levels().dom().contains(p) ==> final(page_table).levels().dom().contains(p),
            final(allocator).available() == old(allocator).available() - tables_needed(
                present1(old(mem)@, old(page_table).root()),
                present2(old(mem)@, old(page_table).root()),
                old(self).vpn_range.start.0 as int,
                old(self).vpn_range.end.0 as int,
            ) - old(self).data_frames_needed(),
            (present1(final(mem)@, final(page_table).root()), present2(final(mem)@, final(page_table).root()))
                == present_after(
                present1(old(mem)@, old(page_table).root()),
                present2(old(mem)@, old(page_table).root()),
                old(self).vpn_range.start.0 as int,
                old(self).vpn_range.end.0 as int,
            ),
            forall|a: int|
                0 <= a < old(mem)@.len() && !in_tables(final(page_table).levels(), a) && !final(self).in_frames(
                    old(self).data_frames@.len() as int,
                    a,
                ) ==> #[trigger] final(mem)@[a] == old(mem)@[a],
            old(self).map_type == MapType::Framed ==> forall|w: int, j: int|
                old(self).vpn_range.start.0 <= w < old(self).vpn_range.end.0 && 0 <= j < PAGE_SIZE
                    ==> #[trigger] final(mem)@[final(self).target(old(self).data_frames@.len() as int, w) * PAGE_SIZE
                    + j] == 0,
            old(self).map_type == MapType::Framed ==> {
                let n = old(self).data_frames@.len() as int;
                let lo = old(self).vpn_range.start.0 as int;
                let hi = old(self).vpn_range.end.0 as int;
                &&& final(self).data_frames@.len() == n + old(self).data_frames_needed()
                &&& final(self).data_frames@.subrange(0, n) == old(self).data_frames@
                &&& forall|w: int| lo <= w < hi ==> (#[trigger] final(self).data_frames@[n + w - lo]).0.0 == w
                &&& forall|w: int|
                    lo <= w < hi ==> !old(allocator).in_use(#[trigger] final(self).target(n, w) as usize)
                        && frame_used(*final(allocator), final(self).target(n, w))
                        && !final(page_table).levels().dom().contains(final(self).target(n, w))
                &&& forall|v: int, w: int|
                    lo <= v < w < hi ==> #[trigger] final(self).target(n, v) != #[trigger] final(self).target(n, w)
            },
            old(self).frames_ok(*old(allocator), old(page_table).levels()) && (forall|i: int|
                0 <= i < old(self).data_frames@.len() ==> !(old(self).vpn_range.start.0 <= (
                #[trigger] old(self).data_frames@[i]).0.0 < old(self).vpn_range.end.0)) ==> final(self).frames_ok(
                *final(allocator),
                final(page_table).levels(),
            ),
    {
        let ghost m0 = mem@;
        let ghost a0 = *allocator;
        let ghost root = page_table.root();
        let ghost n = self.data_frames@.len() as int;
        let ghost framed = self.map_type == MapType::Framed;
        let start = self.vpn_range.start.0;
        let end = self.vpn_range.end.0;
        if start >= end {
            proof {
                reveal(tables_needed);
                reveal(present_after);
                assert(self.data_frames@.subrange(0, n) =~= self.data_frames@);
            }
            return;
        }
        let mut v = start;
        while v < end
            invariant
                start <= v <= end,
                end - start <= VPN_LIMIT,
                self.map_type == MapType::Identical ==> end <= PPN_MASK + 1,
                start == old(self).vpn_range.start.0,
                end == old(self).vpn_range.end.0,
                self.vpn_range == old(self).vpn_range,
                self.map_type == old(self).map_type,
                self.map_perm == old(self).map_perm,
                framed == (self.map_type == MapType::Framed),
                n == old(self).data_frames@.len(),
                page_table.wf(mem@, *allocator),
                page_table.root() == root,
                root == old(page_table).root(),
                allocator.limit() == a0.limit(),
                a0 == *old(allocator),
                m0 == old(mem)@,
                mem@.len() == m0.len(),
                forall|p: usize| a0.in_use(p) ==> #[trigger] allocator.in_use(p),
                allocator.available() >= tables_needed(present1(mem@, root), present2(mem@, root), v as int, end as int)
                    + if framed {
                    end - v
                } else {
                    0
                },
                forall|w: int| v <= w < end ==> #[trigger] mapping(mem@, root, w) is None,
                forall|w: int|
                    start <= w < v ==> #[trigger] mapping(mem@, root, w) == Some(
                        pte_bits(self.target(n, w) as u64, self.map_perm.bits | PTE_V),
                    ),
                forall|w: int|
                    0 <= w && !slot_taken(start as int, v as int, w) ==> #[trigger] mapping(mem@, root, w) == mapping(
                        m0,
                        root,
                        w,
                    ),
                !framed ==> self.data_frames@ == old(self).data_frames@,
                forall|p: int|
                    #[trigger] page_table.levels().dom().contains(p) ==> old(page_table).levels().dom().contains(p)
                        || !frame_used(a0, p),
                forall|p: int|
                    #[trigger] old(page_table).levels().dom().contains(p) ==> page_table.levels().dom().contains(p),
                allocator.available() - tables_needed(present1(mem@, root), present2(mem@, root), v as int, end as int)
                    - if framed {
                    end - v
                } else {
                    0
                } == a0.available() - tables_needed(present1(m0, root), present2(m0, root), start as int, end as int)
                    - if framed {
                    end - start
                } else {
                    0
                },
                present_after(present1(mem@, root), present2(mem@, root), v as int, end as int) == present_after(
                    present1(m0, root),
                    present2(m0, root),
                    start as int,
                    end as int,
                ),
                forall|a: int|
                    0 <= a < m0.len() && !in_tables(page_table.levels(), a) && !(framed && exists|w: int|
                        start <= w < v && #[trigger] self.target(n, w) * PAGE_SIZE <= a < self.target(n, w) * PAGE_SIZE
                            + PAGE_SIZE) ==> #[trigger] mem@[a] == m0[a],
                framed ==> forall|w: int, j: int|
                    start <= w < v && 0 <= j < PAGE_SIZE ==> #[trigger] mem@[self.target(n, w) * PAGE_SIZE + j] == 0,
                framed ==> {
                    &&& self.data_frames@.len() == n + (v - start)
                    &&& self.data_frames@.subrange(0, n) == old(self).data_frames@
                    &&& forall|w: int| start <= w < v ==> (#[trigger] self.data_frames@[n + w - start]).0.0 == w
                    &&& forall|w: int|
                        start <= w < v ==> !a0.in_use(#[trigger] self.target(n, w) as usize) && frame_used(
                            *allocator,
                            self.target(n, w),
                        ) && !page_table.levels().dom().contains(self.target(n, w))
                    &&& forall|x: int, w: int|
                        start <= x < w < v ==> #[trigger] self.target(n, x) != #[trigger] self.target(n, w)
                },
            decreases end - v,
        {
            let ghost m1 = mem@;
            let ghost a1 = *allocator;
            let ghost df1 = self.data_frames@;
            let ghost lv1 = page_table.levels();
            let ghost self1 = *self;
            proof {
                reveal(tables_needed);
                reveal(present_after);
                lemma_missing_present(m1, root, v as int);
                lemma_tables_needed_nonneg(
                    present1(m1, root).insert(vpn_index(v as int, 0)),
                    present2(m1, root).insert((vpn_index(v as int, 0), vpn_index(v as int, 1))),
                    v + 1,
                    end as int,
                );
            }
            self.map_one(page_table, VirtPageNum(v), allocator, mem);
            proof {
                assert forall|w: int| start <= w < end && w != v implies #[trigger] mapping(mem@, root, w) == mapping(m1, root, w) by {
                    lemma_distinct_slots(v as int, w);
                }
                assert forall|w: int| 0 <= w && !slot_taken(start as int, v + 1, w) implies #[trigger] mapping(mem@, root, w)
                    == mapping(m0, root, w) by {
                    reveal(slot_taken);
                    assert(!same_slot(v as int, w));
                    if slot_taken(start as int, v as int, w) {
                        let u = choose|u: int| start <= u < v && #[trigger] same_slot(u, w);
                        assert(start <= u < v + 1 && same_slot(u, w));
                    }
                }
                if framed {
                    assert(self.data_frames@.subrange(0, n) =~= old(self).data_frames@) by {
                        assert(self.data_frames@.drop_last() == df1);
                        assert forall|k: int| 0 <= k < n implies self.data_frames@[k] == df1[k] by {
                            assert(self.data_frames@.drop_last()[k] == df1[k]);
                        }
                    }
                    assert forall|k: int| 0 <= k < df1.len() implies #[trigger] self.data_frames@[k] == df1[k] by {
                        assert(self.data_frames@.drop_last()[k] == df1[k]);
                    }
                    assert forall|w: int| start <= w < v implies #[trigger] self.target(n, w) == self1.target(n, w) by {
                        assert(self.data_frames@[n + w - start] == df1[n + w - start]);
                    }
                    assert forall|w: int| start <= w < v implies (#[trigger] self.data_frames@[n + w - start]).0.0 == w by {
                        assert(self.data_frames@[n + w - start] == df1[n + w - start]);
                    }
                    let fv = self.data_frames@.last().1.ppn.0 as int;
                    assert(self.data_frames@[n + v - start] == self.data_frames@.last());
                    assert(self.target(n, v as int) == fv);
                    assert forall|w: int| start <= w < v implies #[trigger] self.target(n, w) != fv by {
                        assert(frame_used(a1, self1.target(n, w)));
                    }
                    assert forall|w: int| start <= w < v implies !page_table.levels().dom().contains(#[trigger] self.target(n, w)) by {
                        let f = self1.target(n, w);
                        assert(!lv1.dom().contains(f));
                        assert(frame_used(a1, f));
                    }
                    lemma_used_page_in(*allocator, mem@, fv);
                }
                let lv2 = page_table.levels();
                assert forall|p: int| #[trigger] lv2.dom().contains(p) implies old(page_table).levels().dom().contains(p)
                    || !frame_used(a0, p) by {
                    if !lv1.dom().contains(p) {
                        assert(!frame_used(a1, p));
                    }
                }
                assert forall|a: int|
                    0 <= a < m0.len() && !in_tables(lv2, a) && !(framed && exists|w: int|
                        start <= w < v + 1 && #[trigger] self.target(n, w) * PAGE_SIZE <= a < self.target(n, w) * PAGE_SIZE
                            + PAGE_SIZE) implies #[trigger] mem@[a] == m0[a] by {
                    if in_tables(lv1, a) {
                        let p = choose|p: int| #[trigger] lv1.dom().contains(p) && p * PAGE_SIZE <= a < p * PAGE_SIZE + PAGE_SIZE;
                        assert(lv2.dom().contains(p));
                    }
                    if framed {
                        if self.target(n, v as int) * PAGE_SIZE <= a < self.target(n, v as int) * PAGE_SIZE + PAGE_SIZE {
                            assert(exists|w: int|
                                start <= w < v + 1 && #[trigger] self.target(n, w) * PAGE_SIZE <= a < self.target(n, w)
                                    * PAGE_SIZE + PAGE_SIZE);
                        }
                        if exists|w: int| start <= w < v && #[trigger] self1.target(n, w) * PAGE_SIZE <= a < self1.target(n, w) * PAGE_SIZE + PAGE_SIZE {
                            let w = choose|w: int| start <= w < v && #[trigger] self1.target(n, w) * PAGE_SIZE <= a < self1.target(n, w) * PAGE_SIZE + PAGE_SIZE;
                            assert(self.target(n, w) == self1.target(n, w));
                        }
                    }
                    assert(mem@[a] == m1[a]);
                }
                let tv = self.target(n, v as int);
                let b = self.map_perm.bits;
                lemma_pte_fields(tv as u64, (b | PTE_V));
                assert((b | 1u8) & 1u8 == 1u8) by (bit_vector);
                assert(mapping(mem@, root, v as int) == Some(pte_bits(tv as u64, b | PTE_V)));
            }
            v += 1;
        }
        proof {
            reveal(tables_needed);
            reveal(present_after);
            let df0 = old(self).data_frames@;
            let df = self.data_frames@;
            let lv0 = old(page_table).levels();
            let lv = page_table.levels();
            if old(self).frames_ok(a0, lv0) && (forall|i: int|
                0 <= i < df0.len() ==> !(start <= (#[trigger] df0[i]).0.0 < end)) {
                assert forall|i: int| 0 <= i < n implies #[trigger] df[i] == df0[i] by {
                    if framed {
                        assert(df.subrange(0, n)[i] == df0[i]);
                    }
                }
                assert forall|i: int|
                    0 <= i < df.len() implies frame_used(*allocator, (#[trigger] df[i]).1.ppn.0 as int)
                        && !lv.dom().contains(df[i].1.ppn.0 as int) by {
                    if i < n {
                        assert(df[i] == df0[i]);
                        let f = df0[i].1.ppn.0 as int;
                        assert(frame_used(a0, f));
                        if lv.dom().contains(f) {
                            assert(!frame_used(a0, f));
                        }
                    } else {
                        let w = start + (i - n);
                        assert(self.target(n, w) == df[i].1.ppn.0 as int);
                    }
                }
                assert forall|i: int, j: int|
                    0 <= i < j < df.len() implies (#[trigger] df[i]).0 != (#[trigger] df[j]).0 && df[i].1.ppn
                        != df[j].1.ppn by {
                    if j < n {
                        assert(df[i] == df0[i] && df[j] == df0[j]);
                    } else if i < n {
                        let wj = start + (j - n);
                        assert(df[i] == df0[i]);
                        assert(framed);
                        assert(df[n + wj - start].0.0 == wj);
                        assert(self.target(n, wj) == df[j].1.ppn.0 as int);
                        assert(frame_used(a0, df0[i].1.ppn.0 as int));
                    } else {
                        let wi = start + (i - n);
                        let wj = start + (j - n);
                        assert(framed);
                        assert(df[n + wi - start].0.0 == wi && df[n + wj - start].0.0 == wj);
                        assert(self.target(n, wi) != self.target(n, wj));
                    }
                }
            }
        }
    }

    /// Copies `data` to the frames of the area's pages, a page at a time from
    /// the first page; the area must be framed, and each of those pages mapped
    /// to a page of its own that holds no table.
    pub fn copy_data(&mut self, page_table: &PageTable, data: &[u8], mem: &mut [u8])
        requires
            old(self).map_type == MapType::Framed,
            page_table.placed(old(mem)@),
            data@.len() + PAGE_SIZE <= usize::MAX,
            old(self).vpn_range.start.0 + data_pages(data@.len() as int) <= usize::MAX,
            forall|k: int|
                0 <= k < data_pages(data@.len() as int) ==> #[trigger] mapping(
                    old(mem)@,
                    page_table.root(),
                    old(self).vpn_range.start.0 + k,
                ) is Some && page_in(
                    old(mem)@,
                    frame_of(old(mem)@, page_table.root(), old(self).vpn_range.start.0 + k),
                ) && !page_table.levels().dom().contains(
                    frame_of(old(mem)@, page_table.root(), old(self).vpn_range.start.0 + k),
                ),
            forall|k1: int, k2: int|
                0 <= k1 < k2 < data_pages(data@.len() as int) ==> #[trigger] frame_of(
                    old(mem)@,
                    page_table.root(),
                    old(self).vpn_range.start.0 + k1,
                ) != #[trigger] frame_of(old(mem)@, page_table.root(), old(self).vpn_range.start.0 + k2),
        ensures
            *final(self) == *old(self),
            final(mem)@.len() == old(mem)@.len(),
            page_table.placed(final(mem)@),
            forall|w: int| 0 <= w ==> #[trigger] leaf_value(final(mem)@, page_table.root(), w) == leaf_value(old(mem)@, page_table.root(), w),
            present1(final(mem)@, page_table.root()) == present1(old(mem)@, page_table.root()),
            present2(final(mem)@, page_table.root()) == present2(old(mem)@, page_table.root()),
            forall|k: int, j: int|
                0 <= k < data_pages(data@.len() as int) && 0 <= j < chunk_len(data@.len() as int, k)
                    ==> #[trigger] final(mem)@[frame_of(old(mem)@, page_table.root(), old(self).vpn_range.start.0 + k)
                    * PAGE_SIZE + j] == data@[k * PAGE_SIZE + j],
            forall|a: int|
                0 <= a < old(mem)@.len() && (forall|k: int|
                    0 <= k < data_pages(data@.len() as int) ==> !#[trigger] in_chunk(
                        old(mem)@,
                        page_table.root(),
                        old(self).vpn_range.start.0 as int,
                        data@.len() as int,
                        k,
                        a,
                    )) ==> #[trigger] final(mem)@[a] == old(mem)@[a],
    {
        let _mem_len = mem.len();
        let len = data.len();
        let ghost m0 = mem@;
        let ghost root = page_table.root();
        let ghost lv = page_table.levels();
        let lo = self.vpn_range.start.0;
        let pages: usize = if len <= PAGE_SIZE {
            1
        } else {
            (len - 1) / PAGE_SIZE + 1
        };
        let mut k: usize = 0;
        while k < pages
            invariant
                pages == data_pages(len as int),
                len == data@.len(),
                lo == self.vpn_range.start.0,
                *self == *old(self),
                m0 == old(mem)@,
                root == page_table.root(),
                lv == page_table.levels(),
                page_table.placed(m0),
                k <= pages,
                len + PAGE_SIZE <= usize::MAX,
                lo + pages <= usize::MAX,
                mem@.len() == m0.len(),
                mem@.len() <= usize::MAX,
                forall|k1: int|
                    0 <= k1 < pages ==> #[trigger] mapping(m0, root, lo + k1) is Some && page_in(
                        m0,
                        frame_of(m0, root, lo + k1),
                    ) && !lv.dom().contains(frame_of(m0, root, lo + k1)),
                forall|k1: int, k2: int|
                    0 <= k1 < k2 < pages ==> #[trigger] frame_of(m0, root, lo + k1) != #[trigger] frame_of(m0, root, lo + k2),
                forall|k1: int, j: int|
                    0 <= k1 < k && 0 <= j < chunk_len(len as int, k1) ==> #[trigger] mem@[frame_of(m0, root, lo + k1)
                        * PAGE_SIZE + j] == data@[k1 * PAGE_SIZE + j],
                forall|a: int|
                    0 <= a < m0.len() && (forall|k1: int| 0 <= k1 < k ==> !#[trigger] in_chunk(m0, root, lo as int, len as int, k1, a))
                        ==> #[trigger] mem@[a] == m0[a],
            decreases pages - k,
        {
            proof {
                assert forall|a: int|
                    0 <= a < m0.len() && (exists|p: int| #[trigger] lv.dom().contains(p) && p * PAGE_SIZE <= a < p * PAGE_SIZE + PAGE_SIZE)
                        implies #[trigger] mem@[a] == m0[a] by {
                    let p = choose|p: int| #[trigger] lv.dom().contains(p) && p * PAGE_SIZE <= a < p * PAGE_SIZE + PAGE_SIZE;
                    assert forall|k1: int| 0 <= k1 < k implies !#[trigger] in_chunk(m0, root, lo as int, len as int, k1, a) by {
                        let f = frame_of(m0, root, lo + k1);
                        assert(mapping(m0, root, lo + k1) is Some);
                        if in_chunk(m0, root, lo as int, len as int, k1, a) {
                            lemma_page_offset_unique(f, a - f * PAGE_SIZE, p, a - p * PAGE_SIZE);
                        }
                    }
                }
                lemma_same_tables(m0, mem@, root, lv);
                lemma_placed_walk(mem@, root, lv, lo + k);
                assert(mapping(m0, root, lo + k) is Some);
                assert(k * PAGE_SIZE <= len + PAGE_SIZE) by (nonlinear_arith)
                    requires
                        k < pages,
                        pages == data_pages(len as int),
                ;
            }
            let start = k * PAGE_SIZE;
            let end_b = if len < start + PAGE_SIZE {
                len
            } else {
                start + PAGE_SIZE
            };
            let pte = match page_table.translate(VirtPageNum(lo + k), mem) {
                Some(e) => e,
                None => {
                    proof {
                        assert(false);
                    }
                    PageTableEntry::empty()
                },
            };
            let ghost f = frame_of(m0, root, lo + k);
            proof {
                assert(page_in(m0, f));
            }
            let ppn = pte.ppn().0;
            let base = ppn * PAGE_SIZE;
            let cl = if end_b >= start {
                end_b - start
            } else {
                0
            };
            proof {
                assert(cl == chunk_len(len as int, k as int));
            }
            let ghost mk = mem@;
            let mut j: usize = 0;
            while j < cl
                invariant
                    j <= cl,
                    cl <= PAGE_SIZE,
                    base == f * PAGE_SIZE,
                    base + PAGE_SIZE <= mem@.len(),
                    start + cl <= data@.len(),
                    len == data@.len(),
                    mem@.len() == mk.len(),
                    forall|j2: int| 0 <= j2 < j ==> #[trigger] mem@[base + j2] == data@[start + j2],
                    forall|a: int| 0 <= a < mk.len() && !(base <= a < base + j) ==> #[trigger] mem@[a] == mk[a],
                decreases cl - j,
            {
                mem[base + j] = data[start + j];
                j += 1;
            }
            proof {
                assert forall|k1: int, jj: int|
                    0 <= k1 < k + 1 && 0 <= jj < chunk_len(len as int, k1) implies #[trigger] mem@[frame_of(m0, root, lo + k1)
                    * PAGE_SIZE + jj] == data@[k1 * PAGE_SIZE + jj] by {
                    if k1 < k {
                        let f1 = frame_of(m0, root, lo + k1);
                        assert(mapping(m0, root, lo + k1) is Some);
                        if base <= f1 * PAGE_SIZE + jj < base + cl {
                            lemma_page_offset_unique(f1, jj, f, f1 * PAGE_SIZE + jj - base);
                        }
                    } else {
                        assert(mem@[base + jj] == data@[start + jj]);
                    }
                }
                assert forall|a: int|
                    0 <= a < m0.len() && (forall|k1: int| 0 <= k1 < k + 1 ==> !#[trigger] in_chunk(m0, root, lo as int, len as int, k1, a))
                        implies #[trigger] mem@[a] == m0[a] by {
                    assert(!in_chunk(m0, root, lo as int, len as int, k as int, a));
                    assert forall|k1: int| 0 <= k1 < k implies !#[trigger] in_chunk(m0, root, lo as int, len as int, k1, a) by {
                        assert(!in_chunk(m0, root, lo as int, len as int, k1, a));
                    }
                }
            }
            k += 1;
        }
        proof {
            assert forall|a: int|
                0 <= a < m0.len() && (exists|p: int| #[trigger] lv.dom().contains(p) && p * PAGE_SIZE <= a < p * PAGE_SIZE + PAGE_SIZE)
                    implies #[trigger] mem@[a] == m0[a] by {
                let p = choose|p: int| #[trigger] lv.dom().contains(p) && p * PAGE_SIZE <= a < p * PAGE_SIZE + PAGE_SIZE;
                assert forall|k1: int| 0 <= k1 < k implies !#[trigger] in_chunk(m0, root, lo as int, len as int, k1, a) by {
                    let f = frame_of(m0, root, lo + k1);
                    assert(mapping(m0, root, lo + k1) is Some);
                    if in_chunk(m0, root, lo as int, len as int, k1, a) {
                        lemma_page_offset_unique(f, a - f * PAGE_SIZE, p, a - p * PAGE_SIZE);
                    }
                }
            }
            lemma_same_tables(m0, mem@, root, lv);
        }
    }
}

/// The index of the first frame of page `vpn` in `df`, or `df.len()` when
/// there is none.
pub open spec fn frame_index(df: Seq<(VirtPageNum, FrameTracker)>, vpn: VirtPageNum) -> int
    decreases df.len(),
{
    if df.len() == 0 {
        0
    } else if df[0].0 == vpn {
        0
    } else {
        1 + frame_index(df.drop_first(), vpn)
    }
}

/// The first frame of `vpn` is at `k` when it is there and nowhere before, and
/// the index is the length when there is none.
proof fn lemma_frame_index(df: Seq<(VirtPageNum, FrameTracker)>, vpn: VirtPageNum, k: int)
    requires
        0 <= k <= df.len(),
        forall|j: int| 0 <= j < k ==> (#[trigger] df[j]).0 != vpn,
        k < df.len() ==> df[k].0 == vpn,
    ensures
        frame_index(df, vpn) == k,
    decreases df.len(),
{
    if df.len() > 0 && k > 0 {
        assert forall|j: int| 0 <= j < k - 1 implies (#[trigger] df.drop_first()[j]).0 != vpn by {
            assert(df.drop_first()[j] == df[j + 1]);
        }
        lemma_frame_index(df.drop_first(), vpn, k - 1);
    }
}

/// What byte `j` of the frame of page `w` of an area from page `lo` holds once
/// `data` is copied to it: the data's byte, or zero past the data's end.
pub open spec fn initial_byte(data: Option<Seq<u8>>, lo: int, w: int, j: int) -> u8 {
    match data {
        Some(d) => if (w - lo) * PAGE_SIZE + j < d.len() {
            d[(w - lo) * PAGE_SIZE + j]
        } else {
            0
        },
        None => 0,
    }
}

/// How many table frames mapping the page ranges `a` to `e` one after the
/// other takes, starting from an empty root table.
pub open spec fn kernel_tables_needed(a: (int, int), b: (int, int), c: (int, int), d: (int, int), e: (int, int)) -> int {
    let q1 = present_after(Set::empty(), Set::empty(), a.0, a.1);
    let q2 = present_after(q1.0, q1.1, b.0, b.1);
    let q3 = present_after(q2.0, q2.1, c.0, c.1);
    let q4 = present_after(q3.0, q3.1, d.0, d.1);
    tables_needed(Set::empty(), Set::empty(), a.0, a.1) + tables_needed(q1.0, q1.1, b.0, b.1) + tables_needed(
        q2.0,
        q2.1,
        c.0,
        c.1,
    ) + tables_needed(q3.0, q3.1, d.0, d.1) + tables_needed(q4.0, q4.1, e.0, e.1)
}

/// The pages that hold `[start, end)`.
pub open spec fn page_range(start: usize, end: usize) -> (int, int) {
    (page_floor(start as int), page_ceil(end as int))
}

/// Memory `after` is `before` with `area` mapped, its frames counted from
/// index `first` of its `data_frames`: each of its frames reads zero, and
/// every byte outside the tables of `lv` and the area's frames is unchanged.
#[verifier::opaque]
pub open spec fn fresh_frames(before: Seq<u8>, after: Seq<u8>, lv: Map<int, nat>, area: MapArea, first: int) -> bool {
    &&& forall|w: int, j: int|
        area.vpn_range.start.0 <= w < area.vpn_range.end.0 && 0 <= j < PAGE_SIZE ==> #[trigger] after[area.target(
            first,
            w,
        ) * PAGE_SIZE + j] == 0
    &&& forall|a: int|
        0 <= a < before.len() && !in_tables(lv, a) && !area.in_frames(first, a) ==> #[trigger] after[a] == before[a]
}

/// An address space: a page table and the areas mapped in it.
pub struct MemorySet {
    pub page_table: PageTable,
    pub areas: Vec<MapArea>,
}

impl MemorySet {
    /// An address space with an empty page table, in a frame of `allocator`,
    /// and no area.
    pub fn new_bare(allocator: &mut StackFrameAllocator, mem: &mut [u8]) -> (r: Self)
        requires
            frames_fit(*old(allocator), old(mem)@),
            old(allocator).available() >= 1,
        ensures
            r.page_table.wf(final(mem)@, *final(allocator)),
            r.areas@.len() == 0,
            final(allocator).limit() == old(allocator).limit(),
            final(allocator).available() == old(allocator).available() - 1,
            forall|p: usize| old(allocator).in_use(p) ==> #[trigger] final(allocator).in_use(p),
            final(mem)@.len() == old(mem)@.len(),
            forall|w: int| 0 <= w ==> #[trigger] mapping(final(mem)@, r.page_table.root(), w) is None,
            present1(final(mem)@, r.page_table.root()) == Set::<int>::empty(),
            present2(final(mem)@, r.page_table.root()) == Set::<(int, int)>::empty(),
    {
        Self { page_table: PageTable::new(allocator, mem), areas: Vec::new() }
    }

    /// Maps `map_area` and, when `data` is given, copies it to the area's
    /// frames from its first page on; then keeps the area.
    #[verifier::rlimit(40)]
    fn push(
        &mut self,
        map_area: MapArea,
        data: Option<&[u8]>,
        allocator: &mut StackFrameAllocator,
        mem: &mut [u8],
    )
        requires
            old(self).page_table.wf(old(mem)@, *old(allocator)),
            map_area.vpn_range.end.0 - map_area.vpn_range.start.0 <= VPN_LIMIT,
            map_area.map_type == MapType::Identical ==> map_area.vpn_range.end.0 <= PPN_MASK + 1,
            forall|w: int|
                map_area.vpn_range.start.0 <= w < map_area.vpn_range.end.0 ==> #[trigger] mapping(
                    old(mem)@,
                    old(self).page_table.root(),
                    w,
                ) is None,
            old(allocator).available() >= tables_needed(
                present1(old(mem)@, old(self).page_table.root()),
                present2(old(mem)@, old(self).page_table.root()),
                map_area.vpn_range.start.0 as int,
                map_area.vpn_range.end.0 as int,
            ) + map_area.data_frames_needed(),
            data matches Some(d) ==> {
                &&& map_area.map_type == MapType::Framed
                &&& d@.len() + PAGE_SIZE <= usize::MAX
                &&& map_area.vpn_range.start.0 + data_pages(d@.len() as int) <= map_area.vpn_range.end.0
            },
        ensures
            final(self).page_table.wf(final(mem)@, *final(allocator)),
            final(self).page_table.root() == old(self).page_table.root(),
            final(allocator).limit() == old(allocator).limit(),
            forall|p: usize| old(allocator).in_use(p) ==> #[trigger] final(allocator).in_use(p),
            final(mem)@.len() == old(mem)@.len(),
            final(self).areas@.len() == old(self).areas@.len() + 1,
            final(self).areas@.drop_last() == old(self).areas@,
            final(self).areas@.last().vpn_range == map_area.vpn_range,
            final(self).areas@.last().map_type == map_area.map_type,
            final(self).areas@.last().map_perm == map_area.map_perm,
            final(self).areas@.last().data_frames@.len() == map_area.data_frames@.len() + map_area.data_frames_needed(),
            final(allocator).available() == old(allocator).available() - tables_needed(
                present1(old(mem)@, old(self).page_table.root()),
                present2(old(mem)@, old(self).page_table.root()),
                map_area.vpn_range.start.0 as int,
                map_area.vpn_range.end.0 as int,
            ) - map_area.data_frames_needed(),
            (present1(final(mem)@, final(self).page_table.root()), present2(final(mem)@, final(self).page_table.root()))
                == present_after(
                present1(old(mem)@, old(self).page_table.root()),
                present2(old(mem)@, old(self).page_table.root()),
                map_area.vpn_range.start.0 as int,
                map_area.vpn_range.end.0 as int,
            ),
            forall|w: int|
                map_area.vpn_range.start.0 <= w < map_area.vpn_range.end.0 ==> #[trigger] mapping(
                    final(mem)@,
                    final(self).page_table.root(),
                    w,
                ) == Some(
                    pte_bits(
                        final(self).areas@.last().target(map_area.data_frames@.len() as int, w) as u64,
                        map_area.map_perm.bits | PTE_V,
                    ),
                ),
            forall|w: int|
                0 <= w && !slot_taken(map_area.vpn_range.start.0 as int, map_area.vpn_range.end.0 as int, w)
                    ==> #[trigger] mapping(final(mem)@, final(self).page_table.root(), w) == mapping(
                    old(mem)@,
                    old(self).page_table.root(),
                    w,
                ),
            map_area.map_type == MapType::Framed ==> forall|w: int, j: int|
                map_area.vpn_range.start.0 <= w < map_area.vpn_range.end.0 && 0 <= j < PAGE_SIZE
                    ==> #[trigger] final(mem)@[final(self).areas@.last().target(map_area.data_frames@.len() as int, w)
                    * PAGE_SIZE + j] == initial_byte(
                    match data {
                        Some(d) => Some(d@),
                        None => None,
                    },
                    map_area.vpn_range.start.0 as int,
                    w,
                    j,
                ),
            forall|a: int|
                0 <= a < old(mem)@.len() && !in_tables(final(self).page_table.levels(), a)
                    && !final(self).areas@.last().in_frames(map_area.data_frames@.len() as int, a)
                    ==> #[trigger] final(mem)@[a] == old(mem)@[a],
    {
        let mut map_area = map_area;
        let ghost m0 = mem@;
        let ghost n = map_area.data_frames@.len() as int;
        let ghost root = self.page_table.root();
        let ghost lo = map_area.vpn_range.start.0 as int;
        map_area.map(&mut self.page_table, allocator, mem);
        let ghost m1 = mem@;
        let ghost area1 = map_area;
        match data {
            Some(d) => {
                let ghost len = d@.len() as int;
                proof {
                    assert forall|k: int| 0 <= k < data_pages(len) implies #[trigger] mapping(m1, root, lo + k) is Some
                        && page_in(m1, frame_of(m1, root, lo + k)) && !self.page_table.levels().dom().contains(
                        frame_of(m1, root, lo + k),
                    ) by {
                        let f = map_area.target(n, lo + k);
                        assert(mapping(m1, root, lo + k) == Some(pte_bits(f as u64, map_area.map_perm.bits | PTE_V)));
                        lemma_used_page_in(*allocator, m1, f);
                        lemma_pte_fields(f as u64, map_area.map_perm.bits | PTE_V);
                    }
                    assert forall|k1: int, k2: int| 0 <= k1 < k2 < data_pages(len) implies #[trigger] frame_of(
                        m1,
                        root,
                        lo + k1,
                    ) != #[trigger] frame_of(m1, root, lo + k2) by {
                        let f1 = map_area.target(n, lo + k1);
                        let f2 = map_area.target(n, lo + k2);
                        assert(mapping(m1, root, lo + k1) == Some(pte_bits(f1 as u64, map_area.map_perm.bits | PTE_V)));
                        assert(mapping(m1, root, lo + k2) == Some(pte_bits(f2 as u64, map_area.map_perm.bits | PTE_V)));
                        lemma_used_page_in(*allocator, m1, f1);
                        lemma_used_page_in(*allocator, m1, f2);
                        lemma_pte_fields(f1 as u64, map_area.map_perm.bits | PTE_V);
                        lemma_pte_fields(f2 as u64, map_area.map_perm.bits | PTE_V);
                    }
                }
                map_area.copy_data(&self.page_table, d, mem);
                proof {
                    let m2 = mem@;
                    assert forall|w: int| 0 <= w implies #[trigger] mapping(m2, root, w) == mapping(m1, root, w) by {
                        assert(leaf_value(m2, root, w) == leaf_value(m1, root, w));
                    }
                    assert forall|w: int, j: int|
                        lo <= w < map_area.vpn_range.end.0 && 0 <= j < PAGE_SIZE implies #[trigger] m2[map_area.target(n, w)
                        * PAGE_SIZE + j] == initial_byte(Some(d@), lo, w, j) by {
                        let f = map_area.target(n, w);
                        let k = w - lo;
                        assert(mapping(m1, root, w) == Some(pte_bits(f as u64, map_area.map_perm.bits | PTE_V)));
                        lemma_used_page_in(*allocator, m1, f);
                        lemma_pte_fields(f as u64, map_area.map_perm.bits | PTE_V);
                        assert(frame_of(m1, root, lo + k) == f);
                        if k < data_pages(len) && j < chunk_len(len, k) {
                            assert(m2[frame_of(m1, root, lo + k) * PAGE_SIZE + j] == d@[k * PAGE_SIZE + j]);
                        } else {
                            assert(k * PAGE_SIZE + j >= len) by (nonlinear_arith)
                                requires
                                    !(k < data_pages(len) && j < chunk_len(len, k)),
                                    0 <= k,
                                    0 <= j < 4096,
                                    0 <= len,
                            ;
                            assert forall|k1: int| 0 <= k1 < data_pages(len) implies !#[trigger] in_chunk(
                                m1,
                                root,
                                lo,
                                len,
                                k1,
                                f * PAGE_SIZE + j,
                            ) by {
                                let f1 = frame_of(m1, root, lo + k1);
                                if in_chunk(m1, root, lo, len, k1, f * PAGE_SIZE + j) {
                                    lemma_page_offset_unique(f1, f * PAGE_SIZE + j - f1 * PAGE_SIZE, f, j);
                                    if k1 != k {
                                        let g1 = map_area.target(n, lo + k1);
                                        assert(mapping(m1, root, lo + k1) == Some(pte_bits(g1 as u64, map_area.map_perm.bits | PTE_V)));
                                        lemma_used_page_in(*allocator, m1, g1);
                                        lemma_pte_fields(g1 as u64, map_area.map_perm.bits | PTE_V);
                                        if k1 < k {
                                            assert(map_area.target(n, lo + k1) != map_area.target(n, lo + k));
                                        } else {
                                            assert(map_area.target(n, lo + k) != map_area.target(n, lo + k1));
                                        }
                                    }
                                }
                            }
                            assert(m2[f * PAGE_SIZE + j] == m1[f * PAGE_SIZE + j]);
                        }
                    }
                    assert forall|a: int|
                        0 <= a < m0.len() && !in_tables(self.page_table.levels(), a) && !map_area.in_frames(n, a)
                            implies #[trigger] m2[a] == m0[a] by {
                        assert forall|k1: int| 0 <= k1 < data_pages(len) implies !#[trigger] in_chunk(m1, root, lo, len, k1, a) by {
                            if in_chunk(m1, root, lo, len, k1, a) {
                                let g1 = map_area.target(n, lo + k1);
                                assert(mapping(m1, root, lo + k1) == Some(pte_bits(g1 as u64, map_area.map_perm.bits | PTE_V)));
                                lemma_used_page_in(*allocator, m1, g1);
                                lemma_pte_fields(g1 as u64, map_area.map_perm.bits | PTE_V);
                                assert(map_area.in_frames(n, a));
                            }
                        }
                        assert(m2[a] == m1[a]);
                    }
                }
            },
            None => {},
        }
        self.areas.push(map_area);
        proof {
            assert(self.areas@.drop_last() =~= old(self).areas@);
        }
    }

    /// Maps a framed area for `[start_va, end_va)` with `permission`: each of
    /// its pages gets a zeroed frame of its own. None of them may be mapped yet.
    pub fn insert_framed_area(
        &mut self,
        start_va: VirtAddr,
        end_va: VirtAddr,
        permission: MapPermission,
        allocator: &mut StackFrameAllocator,
        mem: &mut [u8],
    )
        requires
            old(self).page_table.wf(old(mem)@, *old(allocator)),
            page_ceil(end_va.0 as int) - page_floor(start_va.0 as int) <= VPN_LIMIT,
            forall|w: int|
                page_floor(start_va.0 as int) <= w < page_ceil(end_va.0 as int) ==> #[trigger] mapping(
                    old(mem)@,
                    old(self).page_table.root(),
                    w,
                ) is None,
            old(allocator).available() >= tables_needed(
                present1(old(mem)@, old(self).page_table.root()),
                present2(old(mem)@, old(self).page_table.root()),
                page_floor(start_va.0 as int),
                page_ceil(end_va.0 as int),
            ) + if page_floor(start_va.0 as int) < page_ceil(end_va.0 as int) {
                page_ceil(end_va.0 as int) - page_floor(start_va.0 as int)
            } else {
                0
            },
        ensures
            final(self).page_table.wf(final(mem)@, *final(allocator)),
            final(self).page_table.root() == old(self).page_table.root(),
            final(allocator).limit() == old(allocator).limit(),
            forall|p: usize| old(allocator).in_use(p) ==> #[trigger] final(allocator).in_use(p),
            final(mem)@.len() == old(mem)@.len(),
            final(self).areas@.len() == old(self).areas@.len() + 1,
            final(self).areas@.drop_last() == old(self).areas@,
            final(self).areas@.last().vpn_range.start.0 == page_floor(start_va.0 as int),
            final(self).areas@.last().vpn_range.end.0 == page_ceil(end_va.0 as int),
            final(self).areas@.last().map_type == MapType::Framed,
            final(self).areas@.last().map_perm == permission,
            final(self).areas@.last().data_frames@.len() == if page_floor(start_va.0 as int) < page_ceil(end_va.0 as int) {
                page_ceil(end_va.0 as int) - page_floor(start_va.0 as int)
            } else {
                0
            },
            final(allocator).available() == old(allocator).available() - tables_needed(
                present1(old(mem)@, old(self).page_table.root()),
                present2(old(mem)@, old(self).page_table.root()),
                page_floor(start_va.0 as int),
                page_ceil(end_va.0 as int),
            ) - if page_floor(start_va.0 as int) < page_ceil(end_va.0 as int) {
                page_ceil(end_va.0 as int) - page_floor(start_va.0 as int)
            } else {
                0
            },
            present1(final(mem)@, final(self).page_table.root()) == present_after(
                present1(old(mem)@, old(self).page_table.root()),
                present2(old(mem)@, old(self).page_table.root()),
                page_floor(start_va.0 as int),
                page_ceil(end_va.0 as int),
            ).0,
            present2(final(mem)@, final(self).page_table.root()) == present_after(
                present1(old(mem)@, old(self).page_table.root()),
                present2(old(mem)@, old(self).page_table.root()),
                page_floor(start_va.0 as int),
                page_ceil(end_va.0 as int),
            ).1,
            forall|w: int|
                page_floor(start_va.0 as int) <= w < page_ceil(end_va.0 as int) ==> #[trigger] mapping(
                    final(mem)@,
                    final(self).page_table.root(),
                    w,
                ) == Some(pte_bits(final(self).areas@.last().target(0, w) as u64, permission.bits | PTE_V)),
            forall|w: int|
                0 <= w && !slot_taken(page_floor(start_va.0 as int), page_ceil(end_va.0 as int), w)
                    ==> #[trigger] mapping(final(mem)@, final(self).page_table.root(), w) == mapping(
                    old(mem)@,
                    old(self).page_table.root(),
                    w,
                ),
            fresh_frames(old(mem)@, final(mem)@, final(self).page_table.levels(), final(self).areas@.last(), 0),
    {
        let area = MapArea::new(start_va, end_va, MapType::Framed, permission);
        self.push(area, None, allocator, mem);
        proof {
            reveal(fresh_frames);
        }
    }

    /// Maps the pages that hold `[start_va, end_va)` each to the page of the
    /// same number, with permission `perm`; none of them may be mapped yet.
    fn push_identical(
        &mut self,
        start_va: usize,
        end_va: usize,
        perm: u8,
        allocator: &mut StackFrameAllocator,
        mem: &mut [u8],
    )
        requires
            old(self).page_table.wf(old(mem)@, *old(allocator)),
            page_range(start_va, end_va).1 <= VPN_LIMIT,
            forall|w: int|
                page_range(start_va, end_va).0 <= w < page_range(start_va, end_va).1 ==> #[trigger] mapping(
                    old(mem)@,
                    old(self).page_table.root(),
                    w,
                ) is None,
            old(allocator).available() >= tables_needed(
                present1(old(mem)@, old(self).page_table.root()),
                present2(old(mem)@, old(self).page_table.root()),
                page_range(start_va, end_va).0,
                page_range(start_va, end_va).1,
            ),
        ensures
            final(self).page_table.wf(final(mem)@, *final(allocator)),
            final(self).page_table.root() == old(self).page_table.root(),
            final(allocator).limit() == old(allocator).limit(),
            final(mem)@.len() == old(mem)@.len(),
            final(self).areas@.len() == old(self).areas@.len() + 1,
            final(allocator).available() == old(allocator).available() - tables_needed(
                present1(old(mem)@, old(self).page_table.root()),
                present2(old(mem)@, old(self).page_table.root()),
                page_range(start_va, end_va).0,
                page_range(start_va, end_va).1,
            ),
            present1(final(mem)@, final(self).page_table.root()) == present_after(
                present1(old(mem)@, old(self).page_table.root()),
                present2(old(mem)@, old(self).page_table.root()),
                page_range(start_va, end_va).0,
                page_range(start_va, end_va).1,
            ).0,
            present2(final(mem)@, final(self).page_table.root()) == present_after(
                present1(old(mem)@, old(self).page_table.root()),
                present2(old(mem)@, old(self).page_table.root()),
                page_range(start_va, end_va).0,
                page_range(start_va, end_va).1,
            ).1,
            forall|w: int|
                page_range(start_va, end_va).0 <= w < page_range(start_va, end_va).1 ==> #[trigger] mapping(
                    final(mem)@,
                    final(self).page_table.root(),
                    w,
                ) == Some(pte_bits(w as u64, perm | PTE_V)),
            forall|w: int|
                0 <= w < VPN_LIMIT && !(page_range(start_va, end_va).0 <= w < page_range(start_va, end_va).1)
                    ==> #[trigger] mapping(final(mem)@, final(self).page_table.root(), w) == mapping(
                    old(mem)@,
                    old(self).page_table.root(),
                    w,
                ),
    {
        let area = MapArea::new(VirtAddr(start_va), VirtAddr(end_va), MapType::Identical, MapPermission { bits: perm });
        let ghost m0 = mem@;
        let ghost root = self.page_table.root();
        self.push(area, None, allocator, mem);
        proof {
            let r = page_range(start_va, end_va);
            assert forall|w: int| 0 <= w < VPN_LIMIT && !(r.0 <= w < r.1) implies #[trigger] mapping(mem@, root, w)
                == mapping(m0, root, w) by {
                lemma_slot_free(r.0, r.1, w);
            }
        }
    }

    /// The kernel's address space: the trampoline page at the top of the
    /// address space, mapped to the code at `strampoline`, readable and
    /// executable; then the kernel's text, read-only data, data and bss
    /// sections, and the physical memory from the kernel's end up to
    /// `MEMORY_END`, each mapped to the same pages with the section's
    /// permissions; all in tables from frames of `allocator`.
    #[verifier::rlimit(100)]
    #[verifier::spinoff_prover]
    pub fn new_kernel(
        stext: usize,
        etext: usize,
        srodata: usize,
        erodata: usize,
        sdata: usize,
        edata: usize,
        sbss_with_stack: usize,
        ebss: usize,
        ekernel: usize,
        strampoline: usize,
        allocator: &mut StackFrameAllocator,
        mem: &mut [u8],
    ) -> (r: Self)
        requires
            frames_fit(*old(allocator), old(mem)@),
            page_range(stext, etext).0 <= page_range(stext, etext).1,
            page_range(srodata, erodata).0 <= page_range(srodata, erodata).1,
            page_range(sdata, edata).0 <= page_range(sdata, edata).1,
            page_range(sbss_with_stack, ebss).0 <= page_range(sbss_with_stack, ebss).1,
            page_range(stext, etext).1 <= page_range(srodata, erodata).0,
            page_range(srodata, erodata).1 <= page_range(sdata, edata).0,
            page_range(sdata, edata).1 <= page_range(sbss_with_stack, ebss).0,
            page_range(sbss_with_stack, ebss).1 <= page_range(ekernel, MEMORY_END).0,
            page_range(ekernel, MEMORY_END).0 <= VPN_LIMIT - 1,
            strampoline % PAGE_SIZE == 0,
            strampoline / PAGE_SIZE <= PPN_MASK,
            old(allocator).available() >= 3 + kernel_tables_needed(
                page_range(stext, etext),
                page_range(srodata, erodata),
                page_range(sdata, edata),
                page_range(sbss_with_stack, ebss),
                page_range(ekernel, MEMORY_END),
            ),
        ensures
            r.page_table.wf(final(mem)@, *final(allocator)),
            r.areas@.len() == 5,
            mapping(final(mem)@, r.page_table.root(), VPN_LIMIT - 1) == Some(
                pte_bits((strampoline / PAGE_SIZE) as u64, PTE_R | PTE_X | PTE_V),
            ),
            final(allocator).limit() == old(allocator).limit(),
            final(mem)@.len() == old(mem)@.len(),
            forall|w: int|
                page_range(stext, etext).0 <= w < page_range(stext, etext).1 ==> #[trigger] mapping(
                    final(mem)@,
                    r.page_table.root(),
                    w,
                ) == Some(pte_bits(w as u64, MAP_R | MAP_X | PTE_V)),
            forall|w: int|
                page_range(srodata, erodata).0 <= w < page_range(srodata, erodata).1 ==> #[trigger] mapping(
                    final(mem)@,
                    r.page_table.root(),
                    w,
                ) == Some(pte_bits(w as u64, MAP_R | PTE_V)),
            forall|w: int|
                page_range(sdata, edata).0 <= w < page_range(sdata, edata).1 ==> #[trigger] mapping(
                    final(mem)@,
                    r.page_table.root(),
                    w,
                ) == Some(pte_bits(w as u64, MAP_R | MAP_W | PTE_V)),
            forall|w: int|
                page_range(sbss_with_stack, ebss).0 <= w < page_range(sbss_with_stack, ebss).1 ==> #[trigger] mapping(
                    final(mem)@,
                    r.page_table.root(),
                    w,
                ) == Some(pte_bits(w as u64, MAP_R | MAP_W | PTE_V)),
            forall|w: int|
                page_range(ekernel, MEMORY_END).0 <= w < page_range(ekernel, MEMORY_END).1 ==> #[trigger] mapping(
                    final(mem)@,
                    r.page_table.root(),
                    w,
                ) == Some(pte_bits(w as u64, MAP_R | MAP_W | PTE_V)),
            forall|w: int|
                0 <= w < VPN_LIMIT - 1 && !(page_range(stext, etext).0 <= w < page_range(stext, etext).1) && !(page_range(
                    srodata,
                    erodata,
                ).0 <= w < page_range(srodata, erodata).1) && !(page_range(sdata, edata).0 <= w < page_range(
                    sdata,
                    edata,
                ).1) && !(page_range(sbss_with_stack, ebss).0 <= w < page_range(sbss_with_stack, ebss).1) && !(
                page_range(ekernel, MEMORY_END).0 <= w < page_range(ekernel, MEMORY_END).1) ==> #[trigger] mapping(
                    final(mem)@,
                    r.page_table.root(),
                    w,
                ) is None,
    {
        let mut memory_set = Self::new_kernel_sections(
            stext,
            etext,
            srodata,
            erodata,
            sdata,
            edata,
            sbss_with_stack,
            ebss,
            ekernel,
            allocator,
            mem,
        );
        let ghost m1 = mem@;
        let ghost root = memory_set.page_table.root();
        let ghost top = VPN_LIMIT - 1;
        proof {
            assert(page_range(ekernel, MEMORY_END).1 < top);
            assert(mapping(m1, root, top) is None);
        }
        // The trampoline's page: the last of the 39-bit address space.
        let vpn = VirtPageNum(VPN_LIMIT - 1);
        let ppn = PhysAddr(strampoline).floor();
        let flags = PTEFlags { bits: PTE_R | PTE_X };
        memory_set.page_table.map(vpn, ppn, flags, allocator, mem);
        proof {
            let e = pte_bits(ppn.0 as u64, flags.bits | PTE_V);
            lemma_pte_fields(ppn.0 as u64, flags.bits | PTE_V);
            let fb: u8 = flags.bits;
            assert((fb | 1u8) & 1u8 == 1u8) by (bit_vector);
            assert(mapping(mem@, root, top) == Some(e));
            assert forall|w: int| 0 <= w < VPN_LIMIT && w != top implies #[trigger] mapping(mem@, root, w)
                == mapping(m1, root, w) by {
                lemma_distinct_slots(top, w);
            }
        }
        memory_set
    }

    /// The sections of the kernel's address space: its text, read-only data,
    /// data and bss sections, and the physical memory from the kernel's end up
    /// to `MEMORY_END`, each mapped to the same pages with the section's
    /// permissions, in tables from frames of `allocator`.
    #[verifier::rlimit(100)]
    fn new_kernel_sections(
        stext: usize,
        etext: usize,
        srodata: usize,
        erodata: usize,
        sdata: usize,
        edata: usize,
        sbss_with_stack: usize,
        ebss: usize,
        ekernel: usize,
        allocator: &mut StackFrameAllocator,
        mem: &mut [u8],
    ) -> (r: Self)
        requires
            frames_fit(*old(allocator), old(mem)@),
            page_range(stext, etext).0 <= page_range(stext, etext).1,
            page_range(srodata, erodata).0 <= page_range(srodata, erodata).1,
            page_range(sdata, edata).0 <= page_range(sdata, edata).1,
            page_range(sbss_with_stack, ebss).0 <= page_range(sbss_with_stack, ebss).1,
            page_range(stext, etext).1 <= page_range(srodata, erodata).0,
            page_range(srodata, erodata).1 <= page_range(sdata, edata).0,
            page_range(sdata, edata).1 <= page_range(sbss_with_stack, ebss).0,
            page_range(sbss_with_stack, ebss).1 <= page_range(ekernel, MEMORY_END).0,
            page_range(ekernel, MEMORY_END).0 <= VPN_LIMIT,
            old(allocator).available() >= 1 + kernel_tables_needed(
                page_range(stext, etext),
                page_range(srodata, erodata),
                page_range(sdata, edata),
                page_range(sbss_with_stack, ebss),
                page_range(ekernel, MEMORY_END),
            ),
        ensures
            r.page_table.wf(final(mem)@, *final(allocator)),
            r.areas@.len() == 5,
            final(allocator).limit() == old(allocator).limit(),
            final(allocator).available() == old(allocator).available() - 1 - kernel_tables_needed(
                page_range(stext, etext),
                page_range(srodata, erodata),
                page_range(sdata, edata),
                page_range(sbss_with_stack, ebss),
                page_range(ekernel, MEMORY_END),
            ),
            final(mem)@.len() == old(mem)@.len(),
            forall|w: int|
                page_range(stext, etext).0 <= w < page_range(stext, etext).1 ==> #[trigger] mapping(
                    final(mem)@,
                    r.page_table.root(),
                    w,
                ) == Some(pte_bits(w as u64, MAP_R | MAP_X | PTE_V)),
            forall|w: int|
                page_range(srodata, erodata).0 <= w < page_range(srodata, erodata).1 ==> #[trigger] mapping(
                    final(mem)@,
                    r.page_table.root(),
                    w,
                ) == Some(pte_bits(w as u64, MAP_R | PTE_V)),
            forall|w: int|
                page_range(sdata, edata).0 <= w < page_range(sdata, edata).1 ==> #[trigger] mapping(
                    final(mem)@,
                    r.page_table.root(),
                    w,
                ) == Some(pte_bits(w as u64, MAP_R | MAP_W | PTE_V)),
            forall|w: int|
                page_range(sbss_with_stack, ebss).0 <= w < page_range(sbss_with_stack, ebss).1 ==> #[trigger] mapping(
                    final(mem)@,
                    r.page_table.root(),
                    w,
                ) == Some(pte_bits(w as u64, MAP_R | MAP_W | PTE_V)),
            forall|w: int|
                page_range(ekernel, MEMORY_END).0 <= w < page_range(ekernel, MEMORY_END).1 ==> #[trigger] mapping(
                    final(mem)@,
                    r.page_table.root(),
                    w,
                ) == Some(pte_bits(w as u64, MAP_R | MAP_W | PTE_V)),
            forall|w: int|
                0 <= w < VPN_LIMIT && !(page_range(stext, etext).0 <= w < page_range(stext, etext).1) && !(page_range(
                    srodata,
                    erodata,
                ).0 <= w < page_range(srodata, erodata).1) && !(page_range(sdata, edata).0 <= w < page_range(
                    sdata,
                    edata,
                ).1) && !(page_range(sbss_with_stack, ebss).0 <= w < page_range(sbss_with_stack, ebss).1) && !(
                page_range(ekernel, MEMORY_END).0 <= w < page_range(ekernel, MEMORY_END).1) ==> #[trigger] mapping(
                    final(mem)@,
                    r.page_table.root(),
                    w,
                ) is None,
    {
        let ghost r0 = page_range(stext, etext);
        let ghost r1 = page_range(srodata, erodata);
        let ghost r2 = page_range(sdata, edata);
        let ghost r3 = page_range(sbss_with_stack, ebss);
        let ghost r4 = page_range(ekernel, MEMORY_END);
        let ghost q1 = present_after(Set::empty(), Set::empty(), r0.0, r0.1);
        let ghost q2 = present_after(q1.0, q1.1, r1.0, r1.1);
        let ghost q3 = present_after(q2.0, q2.1, r2.0, r2.1);
        let ghost q4 = present_after(q3.0, q3.1, r3.0, r3.1);
        proof {
            lemma_tables_needed_nonneg(Set::empty(), Set::empty(), r0.0, r0.1);
            lemma_tables_needed_nonneg(q1.0, q1.1, r1.0, r1.1);
            lemma_tables_needed_nonneg(q2.0, q2.1, r2.0, r2.1);
            lemma_tables_needed_nonneg(q3.0, q3.1, r3.0, r3.1);
            lemma_tables_needed_nonneg(q4.0, q4.1, r4.0, r4.1);
        }
        let mut memory_set = Self::new_bare(allocator, mem);
        let ghost root = memory_set.page_table.root();
        let ghost m0 = mem@;
        memory_set.push_identical(stext, etext, MAP_R | MAP_X, allocator, mem);
        let ghost m1 = mem@;
        proof {
            assert(present1(m1, root) == q1.0 && present2(m1, root) == q1.1);
            assert forall|w: int| r1.0 <= w < VPN_LIMIT implies #[trigger] mapping(m1, root, w) is None by {
                assert(mapping(m1, root, w) == mapping(m0, root, w));
            }
        }
        memory_set.push_identical(srodata, erodata, MAP_R, allocator, mem);
        let ghost m2 = mem@;
        proof {
            assert(present1(m2, root) == q2.0 && present2(m2, root) == q2.1);
            assert forall|w: int| r2.0 <= w < VPN_LIMIT implies #[trigger] mapping(m2, root, w) is None by {
                assert(mapping(m2, root, w) == mapping(m1, root, w));
            }
        }
        memory_set.push_identical(sdata, edata, MAP_R | MAP_W, allocator, mem);
        let ghost m3 = mem@;
        proof {
            assert(present1(m3, root) == q3.0 && present2(m3, root) == q3.1);
            assert forall|w: int| r3.0 <= w < VPN_LIMIT implies #[trigger] mapping(m3, root, w) is None by {
                assert(mapping(m3, root, w) == mapping(m2, root, w));
            }
        }
        memory_set.push_identical(sbss_with_stack, ebss, MAP_R | MAP_W, allocator, mem);
        let ghost m4 = mem@;
        proof {
            assert(present1(m4, root) == q4.0 && present2(m4, root) == q4.1);
            assert forall|w: int| r4.0 <= w < VPN_LIMIT implies #[trigger] mapping(m4, root, w) is None by {
                assert(mapping(m4, root, w) == mapping(m3, root, w));
            }
        }
        memory_set.push_identical(ekernel, MEMORY_END, MAP_R | MAP_W, allocator, mem);
        proof {
            assert forall|w: int| r0.0 <= w < r0.1 implies #[trigger] mapping(mem@, root, w) == Some(
                pte_bits(w as u64, MAP_R | MAP_X | PTE_V),
            ) by {
                assert(mapping(m4, root, w) == mapping(m3, root, w));
                assert(mapping(m3, root, w) == mapping(m2, root, w));
                assert(mapping(m2, root, w) == mapping(m1, root, w));
            }
            assert forall|w: int| r1.0 <= w < r1.1 implies #[trigger] mapping(mem@, root, w) == Some(
                pte_bits(w as u64, MAP_R | PTE_V),
            ) by {
                assert(mapping(m4, root, w) == mapping(m3, root, w));
                assert(mapping(m3, root, w) == mapping(m2, root, w));
            }
            assert forall|w: int| r2.0 <= w < r2.1 implies #[trigger] mapping(mem@, root, w) == Some(
                pte_bits(w as u64, MAP_R | MAP_W | PTE_V),
            ) by {
                assert(mapping(m4, root, w) == mapping(m3, root, w));
            }
            assert forall|w: int|
                0 <= w < VPN_LIMIT && !(r0.0 <= w < r0.1) && !(r1.0 <= w < r1.1) && !(r2.0 <= w
                    < r2.1) && !(r3.0 <= w < r3.1) && !(r4.0 <= w < r4.1) implies #[trigger] mapping(
                mem@,
                root,
                w,
            ) is None by {
                assert(mapping(m4, root, w) == mapping(m3, root, w));
                assert(mapping(m3, root, w) == mapping(m2, root, w));
                assert(mapping(m2, root, w) == mapping(m1, root, w));
                assert(mapping(m1, root, w) == mapping(m0, root, w));
            }
        }
        memory_set
    }

}

} // verus!
