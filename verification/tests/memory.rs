use rcore::kernel::address::{PhysPageNum, VPNRange, VirtAddr, VirtPageNum};
use rcore::kernel::config::PAGE_SIZE;
use rcore::kernel::frame_allocator::StackFrameAllocator;
use rcore::kernel::memory_set::{MapArea, MapPermission, MapType, MemorySet, MAP_R, MAP_U, MAP_W, MAP_X};
use rcore::kernel::syscall::fs::sys_pipe;
use rcore::kernel::task::exec::push_args;
use rcore::kernel::id::{kstack_alloc, KernelStack, RecycleAllocator, TaskUserRes};
use rcore::kernel::config::{KERNEL_STACK_SIZE, TRAMPOLINE, TRAP_CONTEXT_BASE, USER_STACK_SIZE};
use rcore::kernel::page_table::{
    write_user_word, translated_byte_buffer, translated_refmut, translated_str, PTEFlags, PageTable, PageTableEntry, UserBuffer,
    PTE_R, PTE_V, PTE_W, PTE_X,
};

const PAGES: usize = 64;

fn machine() -> (StackFrameAllocator, Vec<u8>) {
    let mut a = StackFrameAllocator::new();
    a.init(PhysPageNum(1), PhysPageNum(PAGES));
    (a, vec![0xAAu8; PAGES * PAGE_SIZE])
}

#[test]
fn entry_fields_round_trip() {
    let e = PageTableEntry::new(PhysPageNum(0x12345), PTEFlags { bits: PTE_V | PTE_R | PTE_W });
    assert_eq!(e.bits, (0x12345u64 << 10) | 0x7);
    assert_eq!(e.ppn().0, 0x12345);
    assert_eq!(e.flags().bits, 0x7);
    assert!(e.is_valid());
    assert!(e.readable());
    assert!(e.writable());
    assert!(!e.executable());
    let z = PageTableEntry::empty();
    assert_eq!(z.bits, 0);
    assert!(!z.is_valid());
}

#[test]
fn vpn_indexes_split_27_bits() {
    let vpn = VirtPageNum((3 << 18) | (5 << 9) | 7);
    assert_eq!(vpn.indexes(), [3, 5, 7]);
    assert_eq!(VirtPageNum(0x7ff_ffff).indexes(), [511, 511, 511]);
}

#[test]
fn new_page_table_maps_nothing() {
    let (mut a, mut mem) = machine();
    let pt = PageTable::new(&mut a, &mut mem);
    // the root came from the allocator and was zeroed
    assert!(mem[PAGE_SIZE..2 * PAGE_SIZE].iter().all(|b| *b == 0));
    assert!(pt.translate(VirtPageNum(0), &mem).is_none());
    assert!(pt.translate(VirtPageNum(0x1234), &mem).is_none());
}

#[test]
fn map_then_translate_gives_the_entry() {
    let (mut a, mut mem) = machine();
    let mut pt = PageTable::new(&mut a, &mut mem);
    let vpn = VirtPageNum((1 << 18) | (2 << 9) | 3);
    pt.map(vpn, PhysPageNum(0x40), PTEFlags { bits: PTE_R | PTE_W }, &mut a, &mut mem);
    let e = pt.translate(vpn, &mem).unwrap();
    assert_eq!(e.ppn().0, 0x40);
    assert_eq!(e.flags().bits, PTE_R | PTE_W | PTE_V);
    // the root and two new tables: frames 1, 2 and 3
    let next = a.alloc_frame().unwrap();
    assert_eq!(next.0, 4);
    // a page next to it shares the last-level table but is not mapped
    let e2 = pt.translate(VirtPageNum((1 << 18) | (2 << 9) | 4), &mem).unwrap();
    assert!(!e2.is_valid());
    // a page under another root entry has no tables
    assert!(pt.translate(VirtPageNum(5 << 18), &mem).is_none());
}

#[test]
fn second_mapping_in_same_table_takes_no_frame() {
    let (mut a, mut mem) = machine();
    let mut pt = PageTable::new(&mut a, &mut mem);
    pt.map(VirtPageNum(10), PhysPageNum(0x30), PTEFlags { bits: PTE_R }, &mut a, &mut mem);
    pt.map(VirtPageNum(11), PhysPageNum(0x31), PTEFlags { bits: PTE_X }, &mut a, &mut mem);
    assert_eq!(a.alloc_frame().unwrap().0, 4);
    assert_eq!(pt.translate(VirtPageNum(10), &mem).unwrap().ppn().0, 0x30);
    assert_eq!(pt.translate(VirtPageNum(11), &mem).unwrap().ppn().0, 0x31);
    assert!(pt.translate(VirtPageNum(11), &mem).unwrap().executable());
}

#[test]
fn unmap_after_map_clears_only_that_entry() {
    let (mut a, mut mem) = machine();
    let mut pt = PageTable::new(&mut a, &mut mem);
    pt.map(VirtPageNum(10), PhysPageNum(0x30), PTEFlags { bits: PTE_R }, &mut a, &mut mem);
    pt.map(VirtPageNum(11), PhysPageNum(0x31), PTEFlags { bits: PTE_R }, &mut a, &mut mem);
    pt.unmap(VirtPageNum(10), &mut mem);
    let e = pt.translate(VirtPageNum(10), &mem).unwrap();
    assert_eq!(e.bits, 0);
    assert_eq!(pt.translate(VirtPageNum(11), &mem).unwrap().ppn().0, 0x31);
}

#[test]
fn translate_va_adds_the_page_offset() {
    let (mut a, mut mem) = machine();
    let mut pt = PageTable::new(&mut a, &mut mem);
    pt.map(VirtPageNum(0x80), PhysPageNum(0x21), PTEFlags { bits: PTE_R }, &mut a, &mut mem);
    let pa = pt.translate_va(VirtAddr(0x80 * PAGE_SIZE + 0x123), &mem).unwrap();
    assert_eq!(pa.0, 0x21 * PAGE_SIZE + 0x123);
    assert!(pt.translate_va(VirtAddr(0x81 * PAGE_SIZE), &mem).is_some());
    assert!(pt.translate_va(VirtAddr(0x4000_0000), &mem).is_none());
}

#[test]
fn token_selects_sv39_and_the_root() {
    let (mut a, mut mem) = machine();
    let pt = PageTable::new(&mut a, &mut mem);
    let token = pt.token();
    assert_eq!(token, (8usize << 60) | 1);
    let again = PageTable::from_token(token);
    assert_eq!(again.token(), token);
    assert!(again.translate(VirtPageNum(0), &mem).is_none());
}

#[test]
fn from_token_walks_existing_tables() {
    let (mut a, mut mem) = machine();
    let mut pt = PageTable::new(&mut a, &mut mem);
    pt.map(VirtPageNum(7), PhysPageNum(0x33), PTEFlags { bits: PTE_R }, &mut a, &mut mem);
    let view = PageTable::from_token(pt.token());
    assert_eq!(view.translate(VirtPageNum(7), &mem).unwrap().ppn().0, 0x33);
}

#[test]
fn identical_area_maps_pages_to_themselves() {
    let (mut a, mut mem) = machine();
    let mut pt = PageTable::new(&mut a, &mut mem);
    let mut area = MapArea::new(
        VirtAddr(0x10 * PAGE_SIZE),
        VirtAddr(0x12 * PAGE_SIZE + 1),
        MapType::Identical,
        MapPermission { bits: MAP_R | MAP_X },
    );
    area.map(&mut pt, &mut a, &mut mem);
    for v in 0x10..0x13 {
        let e = pt.translate(VirtPageNum(v), &mem).unwrap();
        assert_eq!(e.ppn().0, v);
        assert_eq!(e.flags().bits, MAP_R | MAP_X | PTE_V);
    }
    assert!(!pt.translate(VirtPageNum(0x13), &mem).unwrap().is_valid());
    assert_eq!(area.data_frames.len(), 0);
}

#[test]
fn framed_area_gets_zeroed_frames() {
    let (mut a, mut mem) = machine();
    let mut pt = PageTable::new(&mut a, &mut mem);
    let mut area = MapArea::new(
        VirtAddr(0x100 * PAGE_SIZE),
        VirtAddr(0x102 * PAGE_SIZE),
        MapType::Framed,
        MapPermission { bits: MAP_R | MAP_W | MAP_U },
    );
    area.map(&mut pt, &mut a, &mut mem);
    assert_eq!(area.data_frames.len(), 2);
    // frame 2 for the first page, then two tables, then frame 5 for the second
    assert_eq!(area.data_frames[0].0 .0, 0x100);
    assert_eq!(area.data_frames[0].1.ppn.0, 2);
    assert_eq!(area.data_frames[1].1.ppn.0, 5);
    for (vpn, frame) in area.data_frames.iter() {
        let e = pt.translate(*vpn, &mem).unwrap();
        assert_eq!(e.ppn().0, frame.ppn.0);
        let start = frame.ppn.0 * PAGE_SIZE;
        assert!(mem[start..start + PAGE_SIZE].iter().all(|b| *b == 0));
    }
}

#[test]
fn unmap_one_gives_the_frame_back() {
    let (mut a, mut mem) = machine();
    let mut pt = PageTable::new(&mut a, &mut mem);
    let mut area = MapArea::new(
        VirtAddr(0x100 * PAGE_SIZE),
        VirtAddr(0x102 * PAGE_SIZE),
        MapType::Framed,
        MapPermission { bits: MAP_R | MAP_W | MAP_U },
    );
    area.map(&mut pt, &mut a, &mut mem);
    area.unmap_one(&mut pt, VirtPageNum(0x101), &mut a, &mut mem);
    assert_eq!(area.data_frames.len(), 1);
    assert_eq!(area.data_frames[0].0 .0, 0x100);
    assert!(!pt.translate(VirtPageNum(0x101), &mem).unwrap().is_valid());
    assert_eq!(pt.translate(VirtPageNum(0x100), &mem).unwrap().ppn().0, 2);
    // the frame of the unmapped page is the next one handed out
    assert_eq!(a.alloc_frame().unwrap().0, 5);
}

#[test]
fn unmap_one_of_identical_area_keeps_the_allocator() {
    let (mut a, mut mem) = machine();
    let mut pt = PageTable::new(&mut a, &mut mem);
    let mut area = MapArea::new(
        VirtAddr(0x10 * PAGE_SIZE),
        VirtAddr(0x12 * PAGE_SIZE),
        MapType::Identical,
        MapPermission { bits: MAP_R },
    );
    area.map(&mut pt, &mut a, &mut mem);
    area.unmap_one(&mut pt, VirtPageNum(0x10), &mut a, &mut mem);
    assert!(!pt.translate(VirtPageNum(0x10), &mem).unwrap().is_valid());
    assert_eq!(pt.translate(VirtPageNum(0x11), &mem).unwrap().ppn().0, 0x11);
    // the root and two tables came first
    assert_eq!(a.alloc_frame().unwrap().0, 4);
}

#[test]
fn copy_data_fills_frames_page_by_page() {
    let (mut a, mut mem) = machine();
    let mut pt = PageTable::new(&mut a, &mut mem);
    let mut area = MapArea::new(
        VirtAddr(0x200 * PAGE_SIZE),
        VirtAddr(0x203 * PAGE_SIZE),
        MapType::Framed,
        MapPermission { bits: MAP_R | MAP_W },
    );
    area.map(&mut pt, &mut a, &mut mem);
    let data: Vec<u8> = (0..(PAGE_SIZE + 10)).map(|i| (i % 251) as u8 + 1).collect();
    area.copy_data(&pt, &data, &mut mem);
    let f0 = area.data_frames[0].1.ppn.0 * PAGE_SIZE;
    let f1 = area.data_frames[1].1.ppn.0 * PAGE_SIZE;
    let f2 = area.data_frames[2].1.ppn.0 * PAGE_SIZE;
    assert_eq!(&mem[f0..f0 + PAGE_SIZE], &data[..PAGE_SIZE]);
    assert_eq!(&mem[f1..f1 + 10], &data[PAGE_SIZE..]);
    assert!(mem[f1 + 10..f1 + PAGE_SIZE].iter().all(|b| *b == 0));
    assert!(mem[f2..f2 + PAGE_SIZE].iter().all(|b| *b == 0));
}

#[test]
fn copy_of_empty_data_touches_nothing() {
    let (mut a, mut mem) = machine();
    let mut pt = PageTable::new(&mut a, &mut mem);
    let mut area =
        MapArea::new(VirtAddr(0), VirtAddr(PAGE_SIZE), MapType::Framed, MapPermission { bits: MAP_R });
    area.map(&mut pt, &mut a, &mut mem);
    let before = mem.clone();
    area.copy_data(&pt, &[], &mut mem);
    assert_eq!(mem, before);
}

#[test]
fn memory_set_framed_area() {
    let (mut a, mut mem) = machine();
    let mut ms = MemorySet::new_bare(&mut a, &mut mem);
    assert_eq!(ms.areas.len(), 0);
    ms.insert_framed_area(
        VirtAddr(0x3000),
        VirtAddr(0x5800),
        MapPermission { bits: MAP_R | MAP_W },
        &mut a,
        &mut mem,
    );
    assert_eq!(ms.areas.len(), 1);
    let area = &ms.areas[0];
    assert!(area.vpn_range == VPNRange::new(VirtPageNum(3), VirtPageNum(6)));
    assert_eq!(area.data_frames.len(), 3);
    for (vpn, frame) in area.data_frames.iter() {
        let e = ms.page_table.translate(*vpn, &mem).unwrap();
        assert_eq!(e.ppn().0, frame.ppn.0);
        assert_eq!(e.flags().bits, MAP_R | MAP_W | PTE_V);
    }
    assert!(!ms.page_table.translate(VirtPageNum(6), &mem).unwrap().is_valid());
}

#[test]
fn kernel_space_maps_sections_to_themselves() {
    let mut a = StackFrameAllocator::new();
    a.init(PhysPageNum(1), PhysPageNum(PAGES));
    let mut mem = vec![0u8; PAGES * PAGE_SIZE];
    let base = 0x8020_0000usize;
    let ms = MemorySet::new_kernel(
        base,
        base + 0x1800,
        base + 0x2000,
        base + 0x2100,
        base + 0x3000,
        base + 0x3010,
        base + 0x4000,
        base + 0x6000,
        base + 0x6000,
        base + 0x1000,
        &mut a,
        &mut mem,
    );
    assert_eq!(ms.areas.len(), 5);
    let pt = &ms.page_table;
    // the trampoline: the last page of the address space, to the code at base + 0x1000
    let tramp = pt.translate(VirtPageNum(0x7ff_ffff), &mem).unwrap();
    assert_eq!(tramp.ppn().0, base / PAGE_SIZE + 1);
    assert_eq!(tramp.flags().bits, PTE_R | PTE_X | PTE_V);
    let first = base / PAGE_SIZE;
    let text = pt.translate(VirtPageNum(first), &mem).unwrap();
    assert_eq!(text.ppn().0, first);
    assert_eq!(text.flags().bits, MAP_R | MAP_X | PTE_V);
    let rodata = pt.translate(VirtPageNum(first + 2), &mem).unwrap();
    assert_eq!(rodata.flags().bits, MAP_R | PTE_V);
    let data = pt.translate(VirtPageNum(first + 3), &mem).unwrap();
    assert_eq!(data.flags().bits, MAP_R | MAP_W | PTE_V);
    let memory = pt.translate(VirtPageNum(0x807ff), &mem).unwrap();
    assert_eq!(memory.ppn().0, 0x807ff);
    assert_eq!(memory.flags().bits, MAP_R | MAP_W | PTE_V);
    // the next 2 MiB region past the memory has no last-level table
    assert!(pt.translate(VirtPageNum(0x80800), &mem).is_none());
    // a page of another gigabyte has no table
    assert!(pt.translate(VirtPageNum(0), &mem).is_none());
}

#[test]
fn user_buffer_splits_at_page_ends() {
    let (mut a, mut mem) = machine();
    let mut pt = PageTable::new(&mut a, &mut mem);
    pt.map(VirtPageNum(0x10), PhysPageNum(0x30), PTEFlags { bits: PTE_R | PTE_W }, &mut a, &mut mem);
    pt.map(VirtPageNum(0x11), PhysPageNum(0x21), PTEFlags { bits: PTE_R | PTE_W }, &mut a, &mut mem);
    let token = pt.token();
    let pieces = translated_byte_buffer(token, 0x10 * PAGE_SIZE + 4090, 10, &mem);
    assert_eq!(pieces, vec![(0x30 * PAGE_SIZE + 4090, 0x31 * PAGE_SIZE), (0x21 * PAGE_SIZE, 0x21 * PAGE_SIZE + 4)]);
    let whole = translated_byte_buffer(token, 0x10 * PAGE_SIZE, PAGE_SIZE, &mem);
    assert_eq!(whole, vec![(0x30 * PAGE_SIZE, 0x31 * PAGE_SIZE)]);
    assert!(translated_byte_buffer(token, 0x10 * PAGE_SIZE, 0, &mem).is_empty());
    let buffer = UserBuffer::new(pieces);
    assert_eq!(buffer.len(), 10);
}

#[test]
fn user_string_ends_at_zero() {
    let (mut a, mut mem) = machine();
    let mut pt = PageTable::new(&mut a, &mut mem);
    pt.map(VirtPageNum(0x10), PhysPageNum(0x30), PTEFlags { bits: PTE_R }, &mut a, &mut mem);
    let base = 0x30 * PAGE_SIZE + 100;
    mem[base..base + 6].copy_from_slice(b"hello\0");
    let s = translated_str(pt.token(), 0x10 * PAGE_SIZE + 100, &mem);
    assert_eq!(s, "hello");
    mem[base] = 0;
    assert_eq!(translated_str(pt.token(), 0x10 * PAGE_SIZE + 100, &mem), "");
}

#[test]
fn user_reference_reaches_its_frame() {
    let (mut a, mut mem) = machine();
    let mut pt = PageTable::new(&mut a, &mut mem);
    pt.map(VirtPageNum(0x10), PhysPageNum(0x30), PTEFlags { bits: PTE_R | PTE_W }, &mut a, &mut mem);
    assert_eq!(translated_refmut(pt.token(), 0x10 * PAGE_SIZE + 8, &mem), 0x30 * PAGE_SIZE + 8);
}

#[test]
fn user_word_is_stored_little_endian() {
    let (mut a, mut mem) = machine();
    let mut pt = PageTable::new(&mut a, &mut mem);
    pt.map(VirtPageNum(0x10), PhysPageNum(0x30), PTEFlags { bits: PTE_R | PTE_W }, &mut a, &mut mem);
    write_user_word(pt.token(), 0x10 * PAGE_SIZE + 16, 0x0102_0304_0506_0708, &mut mem);
    let pa = 0x30 * PAGE_SIZE + 16;
    assert_eq!(&mem[pa..pa + 8], &[8, 7, 6, 5, 4, 3, 2, 1]);
}

#[test]
fn sys_pipe_installs_both_ends_and_reports_them() {
    let (mut a, mut mem) = machine();
    let mut pt = PageTable::new(&mut a, &mut mem);
    pt.map(VirtPageNum(0x10), PhysPageNum(0x30), PTEFlags { bits: PTE_R | PTE_W }, &mut a, &mut mem);
    let mut fds: Vec<Option<&str>> = vec![Some("stdin"), None, Some("stdout")];
    let r = sys_pipe(&mut fds, "read", "write", pt.token(), 0x10 * PAGE_SIZE, &mut mem);
    assert_eq!(r, 0);
    assert_eq!(fds, vec![Some("stdin"), Some("read"), Some("stdout"), Some("write")]);
    let pa = 0x30 * PAGE_SIZE;
    assert_eq!(&mem[pa..pa + 16], &[1, 0, 0, 0, 0, 0, 0, 0, 3, 0, 0, 0, 0, 0, 0, 0]);
}

#[test]
fn thread_resources_map_stack_and_trap_context() {
    let (mut a, mut mem) = machine();
    let mut ms = MemorySet::new_bare(&mut a, &mut mem);
    let res = TaskUserRes { tid: 1, ustack_base: 0x1000 };
    let bottom = 0x1000 + PAGE_SIZE + USER_STACK_SIZE;
    assert_eq!(res.ustack_top(), bottom + USER_STACK_SIZE);
    assert_eq!(res.ustack_base(), 0x1000);
    assert_eq!(res.trap_cx_user_va(), TRAP_CONTEXT_BASE - PAGE_SIZE);
    res.alloc_user_res(&mut ms, &mut a, &mut mem);
    assert_eq!(ms.areas.len(), 2);
    for v in bottom / PAGE_SIZE..(bottom + USER_STACK_SIZE) / PAGE_SIZE {
        let e = ms.page_table.translate(VirtPageNum(v), &mem).unwrap();
        assert_eq!(e.flags().bits, MAP_R | MAP_W | MAP_U | PTE_V);
    }
    let trap_page = res.trap_cx_user_va() / PAGE_SIZE;
    let e = ms.page_table.translate(VirtPageNum(trap_page), &mem).unwrap();
    assert_eq!(e.flags().bits, MAP_R | MAP_W | PTE_V);
    assert_eq!(res.trap_cx_ppn(&ms, &mem).0, ms.areas[1].data_frames[0].1.ppn.0);
}

#[test]
fn kernel_stacks_hang_below_the_trampoline() {
    let (mut a, mut mem) = machine();
    let mut kernel_space = MemorySet::new_bare(&mut a, &mut mem);
    let mut ids = RecycleAllocator::new();
    let k0 = kstack_alloc(&mut ids, &mut kernel_space, &mut a, &mut mem);
    let k1 = kstack_alloc(&mut ids, &mut kernel_space, &mut a, &mut mem);
    assert_eq!(k0.0, 0);
    assert_eq!(k1.0, 1);
    assert_eq!(k0.get_top(), TRAMPOLINE);
    assert_eq!(KernelStack(1).get_top(), TRAMPOLINE - (KERNEL_STACK_SIZE + PAGE_SIZE));
    let top1 = k1.get_top();
    for va in [top1 - KERNEL_STACK_SIZE, top1 - 1] {
        let e = kernel_space.page_table.translate(VirtAddr(va).floor(), &mem).unwrap();
        assert_eq!(e.flags().bits, MAP_R | MAP_W | PTE_V);
    }
    // the guard page between the two stacks is not mapped
    let guard = kernel_space.page_table.translate(VirtAddr(top1).floor(), &mem).unwrap();
    assert!(!guard.is_valid());
}

fn user_byte(pt: &PageTable, mem: &[u8], va: usize) -> u8 {
    mem[pt.translate_va(VirtAddr(va), mem).unwrap().0]
}

#[test]
fn exec_arguments_are_laid_out_below_the_stack_top() {
    let (mut a, mut mem) = machine();
    let mut pt = PageTable::new(&mut a, &mut mem);
    let mut stack = MapArea::new(
        VirtAddr(0x100 * PAGE_SIZE),
        VirtAddr(0x102 * PAGE_SIZE),
        MapType::Framed,
        MapPermission { bits: MAP_R | MAP_W | MAP_U },
    );
    stack.map(&mut pt, &mut a, &mut mem);
    let top = 0x102 * PAGE_SIZE;
    let args = vec![b"ab".to_vec(), b"c".to_vec()];
    let (sp, argv) = push_args(&pt, top, &args, &mut mem);
    assert_eq!(argv, top - 24);
    assert_eq!(sp, (top - 24 - 5) / 8 * 8);
    let word = |w: usize| -> usize {
        let mut b = [0u8; 8];
        for k in 0..8 {
            b[k] = user_byte(&pt, &mem, argv + 8 * w + k);
        }
        u64::from_le_bytes(b) as usize
    };
    assert_eq!(word(0), argv - 3);
    assert_eq!(word(1), argv - 5);
    assert_eq!(word(2), 0);
    assert_eq!([user_byte(&pt, &mem, argv - 3), user_byte(&pt, &mem, argv - 2), user_byte(&pt, &mem, argv - 1)], [b'a', b'b', 0]);
    assert_eq!([user_byte(&pt, &mem, argv - 5), user_byte(&pt, &mem, argv - 4)], [b'c', 0]);
}

#[test]
fn exec_without_arguments_leaves_one_null_word() {
    let (mut a, mut mem) = machine();
    let mut pt = PageTable::new(&mut a, &mut mem);
    let mut stack = MapArea::new(VirtAddr(0x100 * PAGE_SIZE), VirtAddr(0x101 * PAGE_SIZE), MapType::Framed, MapPermission { bits: MAP_R | MAP_W | MAP_U });
    stack.map(&mut pt, &mut a, &mut mem);
    let top = 0x101 * PAGE_SIZE;
    let (sp, argv) = push_args(&pt, top, &Vec::new(), &mut mem);
    assert_eq!((sp, argv), (top - 8, top - 8));
    for k in 0..8 {
        assert_eq!(user_byte(&pt, &mem, argv + k), 0);
    }
}
