use rcore::kernel::address::{PhysAddr, PhysPageNum, VirtAddr};
use rcore::kernel::config::{kernel_stack_position, KERNEL_STACK_SIZE, PAGE_SIZE, TRAMPOLINE, TRAP_CONTEXT_BASE, USER_STACK_SIZE};
use rcore::kernel::frame_allocator::{frame_alloc, frame_dealloc, init_frame_allocator, FrameTracker, StackFrameAllocator};
use rcore::kernel::fs::inode::{OpenFlags, CREATE, RDWR, WRONLY};
use rcore::kernel::fs::pipe::{Pipe, PipeRingBuffer, PipeStep, RING_BUFFER_SIZE};
use rcore::kernel::id::{pid_alloc, trap_cx_bottom_from_tid, ustack_bottom_from_tid, PidAllocator, RecycleAllocator};
use rcore::kernel::batch::AppManager;
use rcore::kernel::loader::{get_base_i, load_apps};
use rcore::kernel::memory_set::{MapArea, MapPermission, MapType, MAP_R, MAP_W};
use rcore::kernel::sync::{Mutex, MutexSpin};
use rcore::kernel::syscall::fs::{alloc_fd, install_file, sys_close, sys_dup, sys_read, sys_write};
use rcore::kernel::syscall::process::{check_sigaction_error, sys_get_time, sys_getpid, sys_kill, sys_sigaction, sys_sigprocmask, sys_exit, sys_fork, sys_waitpid, sys_yield, Child};
use rcore::kernel::syscall::thread::{sys_gettid, sys_thread_create, sys_waittid};
use rcore::kernel::syscall::{syscall, Syscall, SYSCALL_EXIT, SYSCALL_GET_TIME, SYSCALL_WRITE, SYSCALL_YIELD};
use rcore::kernel::task::action::{SignalAction, SignalActions};
use rcore::kernel::task::context::TaskContext;
use rcore::kernel::task::exec::exec_context;
use rcore::shell::{shell_step, ShellAction, BS, CR, DL, LF};
use rcore::kernel::task::process::change_program_brk;
use rcore::kernel::task::lifecycle::{copy_fd_table, exit_current_and_run_next, fork, new_process, ExitAction, ProcessRecord, ThreadRecord};
use rcore::kernel::task::signal::{SignalFlags, SIGKILL, SIGSTOP};
use rcore::kernel::task::signal_handling::{check_pending_signals, current_add_signal, handle_signals, sys_sigreturn, ProcessSignals, SIGCONT};
use rcore::kernel::timer::{add_timer, check_timer, get_time_ms, remove_timer, set_next_trigger, take_expired, TimerQueue};
use rcore::kernel::task::manager::{
    add_task, fetch_task, insert_into_pid2process, pid2process, remove_from_pid2process, remove_task, TaskManager,
};
use std::collections::BTreeMap;
use rcore::kernel::task::processor::{run_tasks_step, suspend_current_and_run_next, wakeup_task, Processor};
use rcore::kernel::task::task::TaskStatus;
use rcore::kernel::fs::pipe::make_pipe;
use rcore::kernel::trap::context::TrapContext;
use rcore::kernel::trap::{trap_handler, trap_kernel_handler, trap_user_handler, TrapAction, TrapCause};

#[test]
fn pipe_buffer_is_fifo() {
    let mut ring = PipeRingBuffer::new();
    assert_eq!(ring.available_read(), 0);
    assert_eq!(ring.available_write(), RING_BUFFER_SIZE);
    for b in 0..RING_BUFFER_SIZE as u8 {
        ring.write_byte(b);
    }
    assert_eq!(ring.available_read(), 32);
    assert_eq!(ring.available_write(), 0);
    for b in 0..10u8 {
        assert_eq!(ring.read_byte(), b);
    }
    ring.write_byte(100);
    assert_eq!(ring.available_read(), 23);
    for b in 10..32u8 {
        assert_eq!(ring.read_byte(), b);
    }
    assert_eq!(ring.read_byte(), 100);
    assert_eq!(ring.available_read(), 0);
}

#[test]
fn pipe_ends_and_steps() {
    let mut ring = PipeRingBuffer::new();
    ring.set_write_end();
    let reader = Pipe::read_end_with_buffer(1u8);
    let writer = Pipe::write_end_with_buffer(1u8);
    assert!(reader.readable() && !reader.writable());
    assert!(!writer.readable() && writer.writable());
    let data: Vec<u8> = (0..40).collect();
    // 32 bytes fit, then the writer must wait with 8 bytes to go
    assert!(writer.write_step(&mut ring, &data, 0) == PipeStep::Wait(32));
    assert!(writer.write_step(&mut ring, &data, 32) == PipeStep::Wait(32));
    let mut buf = [0u8; 20];
    assert!(reader.read_step(&mut ring, &mut buf, 0) == PipeStep::Done(20));
    assert_eq!(&buf[..], &data[..20]);
    assert!(writer.write_step(&mut ring, &data, 32) == PipeStep::Done(40));
    let mut rest = [0u8; 30];
    // 20 bytes were there and the writer is open: the reader waits for more
    assert!(reader.read_step(&mut ring, &mut rest, 0) == PipeStep::Wait(20));
    assert_eq!(&rest[..20], &data[20..40]);
    // nothing left, writer open: wait; writer gone: done
    assert!(reader.read_step(&mut ring, &mut rest, 20) == PipeStep::Wait(20));
    assert!(!ring.all_write_ends_closed());
    ring.close_write_end();
    assert!(ring.all_write_ends_closed());
    assert!(reader.read_step(&mut ring, &mut rest, 20) == PipeStep::Done(20));
    // a read that fills its buffer is done while the writer is open
    let mut ring = PipeRingBuffer::new();
    ring.set_write_end();
    assert!(writer.write_step(&mut ring, &data[..5], 0) == PipeStep::Done(5));
    let mut small = [0u8; 3];
    assert!(reader.read_step(&mut ring, &mut small, 0) == PipeStep::Done(3));
    let mut big = [0u8; 4];
    assert!(reader.read_step(&mut ring, &mut big, 0) == PipeStep::Wait(2));
}

#[test]
fn frame_allocator_reuses_freed_frames_last_first() {
    let mut memory = vec![0xaau8; 16 * PAGE_SIZE];
    let mut a = StackFrameAllocator::new();
    a.init(PhysPageNum(2), PhysPageNum(5));
    let f2 = frame_alloc(&mut a, &mut memory).unwrap();
    let f3 = frame_alloc(&mut a, &mut memory).unwrap();
    assert_eq!(f2.ppn.0, 2);
    assert_eq!(f3.ppn.0, 3);
    assert!(memory[2 * PAGE_SIZE..4 * PAGE_SIZE].iter().all(|b| *b == 0));
    assert_eq!(memory[PAGE_SIZE], 0xaa);
    frame_dealloc(&mut a, f2.ppn);
    frame_dealloc(&mut a, f3.ppn);
    assert_eq!(frame_alloc(&mut a, &mut memory).unwrap().ppn.0, 3);
    assert_eq!(frame_alloc(&mut a, &mut memory).unwrap().ppn.0, 2);
    assert_eq!(frame_alloc(&mut a, &mut memory).unwrap().ppn.0, 4);
    assert!(frame_alloc(&mut a, &mut memory).is_none());
}

#[test]
fn frame_tracker_zeroes_its_page() {
    let mut memory = vec![1u8; 3 * PAGE_SIZE];
    let t = FrameTracker::new(PhysPageNum(1), &mut memory);
    assert_eq!(t.ppn.0, 1);
    assert!(memory[PAGE_SIZE..2 * PAGE_SIZE].iter().all(|b| *b == 0));
    assert_eq!(memory[0], 1);
    assert_eq!(memory[2 * PAGE_SIZE], 1);
}

#[test]
fn init_frame_allocator_uses_memory_after_kernel() {
    let mut a = StackFrameAllocator::new();
    init_frame_allocator(&mut a, 0x8020_0001);
    // the range runs from the first whole page after the kernel to the end of memory
    assert_eq!(PhysAddr(0x8020_0001).ceil().0, 0x80201);
    assert_eq!(PhysAddr(0x8080_0000).floor().0, 0x80800);
}

#[test]
fn addresses_round_to_pages() {
    assert_eq!(PhysAddr(0).ceil().0, 0);
    assert_eq!(PhysAddr(4096).ceil().0, 1);
    assert_eq!(PhysAddr(4097).ceil().0, 2);
    assert_eq!(PhysAddr(4095).floor().0, 0);
    assert_eq!(VirtAddr(8191).floor().0, 1);
    assert_eq!(VirtAddr(8193).ceil().0, 3);
}

#[test]
fn map_area_covers_whole_pages() {
    let area = MapArea::new(VirtAddr(0x1234), VirtAddr(0x3001), MapType::Framed, MapPermission { bits: MAP_R | MAP_W });
    assert_eq!(area.vpn_range.start.0, 1);
    assert_eq!(area.vpn_range.end.0, 4);
    assert!(area.map_type == MapType::Framed);
    assert_eq!(area.data_frames.len(), 0);
}

#[test]
fn recycle_allocator_hands_out_unused_ids() {
    let mut a = RecycleAllocator::new();
    assert_eq!(a.alloc_id(), 0);
    assert_eq!(a.alloc_id(), 1);
    assert_eq!(a.alloc_id(), 2);
    a.dealloc(1);
    a.dealloc(0);
    assert_eq!(a.alloc_id(), 0);
    assert_eq!(a.alloc_id(), 1);
    assert_eq!(a.alloc_id(), 3);
    let p = pid_alloc(&mut a);
    assert_eq!(p.0, 4);
}

#[test]
fn pid_allocator_hands_out_unused_pids() {
    let mut a = PidAllocator::new();
    assert_eq!(a.alloc_pid().0, 0);
    assert_eq!(a.alloc_pid().0, 1);
    a.dealloc(0);
    assert_eq!(a.alloc_pid().0, 0);
    assert_eq!(a.alloc_pid().0, 2);
}

#[test]
fn stack_and_area_positions() {
    let (bottom, top) = kernel_stack_position(0);
    assert_eq!(top, TRAMPOLINE);
    assert_eq!(bottom, TRAMPOLINE - KERNEL_STACK_SIZE);
    let (bottom2, top2) = kernel_stack_position(2);
    assert_eq!(top2, TRAMPOLINE - 2 * (KERNEL_STACK_SIZE + PAGE_SIZE));
    assert_eq!(bottom2, top2 - KERNEL_STACK_SIZE);
    assert_eq!(trap_cx_bottom_from_tid(0), TRAP_CONTEXT_BASE);
    assert_eq!(trap_cx_bottom_from_tid(3), TRAP_CONTEXT_BASE - 3 * PAGE_SIZE);
    assert_eq!(ustack_bottom_from_tid(0x1000, 2), 0x1000 + 2 * (4096 + 8192));
    assert_eq!(get_base_i(0), 0x80400000);
    assert_eq!(get_base_i(2), 0x80400000 + 2 * 0x20000);
}

#[test]
fn task_context_registers() {
    let mut c = TaskContext::zero_init();
    assert_eq!(c.ra, 0);
    c.set_s(3, 77);
    assert_eq!(c.p_s(3), 77);
    assert_eq!(c.p_s(4), 0);
    let r = TaskContext::goto_restore(0x1000, 0x2000);
    assert_eq!(r.ra, 0x1000);
    assert_eq!(r.sp, 0x2000);
    assert_eq!(r.p_s(0), 0);
}

#[test]
fn trap_context_for_a_new_thread() {
    let cx = TrapContext::app_init_context(0x10000, 0x20000, 7, 8, 9, 0x122);
    assert_eq!(cx.sepc, 0x10000);
    assert_eq!(cx.x[2], 0x20000);
    assert_eq!(cx.x[10], 0);
    assert_eq!(cx.sstatus, 0x22);
    assert_eq!(cx.kernel_satp, 7);
    assert_eq!(cx.kernel_sp, 8);
    assert_eq!(cx.trap_handler, 9);
}

#[test]
fn open_flags_read_write() {
    assert_eq!(OpenFlags::from_bits(0).unwrap().read_write(), (true, false));
    assert_eq!(OpenFlags::from_bits(WRONLY).unwrap().read_write(), (false, true));
    assert_eq!(OpenFlags::from_bits(RDWR).unwrap().read_write(), (true, true));
    assert_eq!(OpenFlags::from_bits(WRONLY | CREATE).unwrap().read_write(), (false, true));
    assert!(OpenFlags::from_bits(1 << 5).is_none());
}

#[test]
fn fd_table_calls() {
    let mut table: Vec<Option<u32>> = vec![Some(10), Some(11), None];
    assert_eq!(alloc_fd(&mut table), 2);
    assert_eq!(install_file(&mut table, Some(12)), 2);
    assert_eq!(install_file(&mut table, None), -1);
    assert_eq!(install_file(&mut table, Some(13)), 3);
    assert_eq!(table.len(), 4);
    assert_eq!(sys_close(&mut table, 1), 0);
    assert_eq!(sys_close(&mut table, 1), -1);
    assert_eq!(sys_close(&mut table, 9), -1);
    assert_eq!(sys_dup(&mut table, 0), 1);
    assert_eq!(table[1], Some(10));
    assert_eq!(sys_dup(&mut table, 7), -1);
    assert_eq!(sys_read(&table, 0, |f: &u32| *f as usize), 10);
    assert_eq!(sys_write(&table, 3, |f: &u32| *f as usize + 1), 14);
    assert_eq!(sys_read(&table, 5, |_f: &u32| 0), -1);
    sys_close(&mut table, 2);
    assert_eq!(sys_write(&table, 2, |_f: &u32| 1), -1);
}

#[test]
fn waitpid_reaps_zombies() {
    let mut children = vec![
        Child { pid: 3, is_zombie: false, exit_code: 0 },
        Child { pid: 4, is_zombie: true, exit_code: 7 },
        Child { pid: 5, is_zombie: true, exit_code: 9 },
    ];
    assert_eq!(sys_waitpid(&mut children, 8), (-1, None));
    assert_eq!(sys_waitpid(&mut children, 3), (-2, None));
    assert_eq!(sys_waitpid(&mut children, 5), (5, Some(9)));
    assert_eq!(children.len(), 2);
    assert_eq!(sys_waitpid(&mut children, -1), (4, Some(7)));
    assert_eq!(sys_waitpid(&mut children, -1), (-2, None));
}

#[test]
fn signal_calls() {
    assert!(check_sigaction_error(SignalFlags { bits: SIGKILL }, 1, 1));
    assert!(check_sigaction_error(SignalFlags { bits: 4 }, 0, 1));
    assert!(!check_sigaction_error(SignalFlags { bits: 4 }, 1, 1));
    let mut actions = SignalActions::default();
    assert_eq!(actions.table[5].mask.bits, 40);
    let new = SignalAction { handler: 0x5000, mask: SignalFlags { bits: 2 } };
    let (r, prev) = sys_sigaction(&mut actions, 5, 0x100, 0x200, || new);
    assert_eq!(r, 0);
    assert_eq!(prev.unwrap().handler, 0);
    assert_eq!(actions.table[5].handler, 0x5000);
    assert_eq!(sys_sigaction(&mut actions, 9, 0x100, 0x200, || new).0, -1);
    assert_eq!(sys_sigaction(&mut actions, 40, 0x100, 0x200, || new).0, -1);
    assert_eq!(sys_sigaction(&mut actions, 6, 0, 0x200, || new).0, -1);

    let mut mask = Some(SignalFlags { bits: 3 });
    assert_eq!(sys_sigprocmask(&mut mask, 12), 3);
    assert_eq!(mask.unwrap().bits, 12);
    let mut none: Option<SignalFlags> = None;
    assert_eq!(sys_sigprocmask(&mut none, 12), -1);

    let mut pending = Some(SignalFlags { bits: 0 });
    assert_eq!(sys_kill(&mut pending, 2), 0);
    assert_eq!(pending.unwrap().bits, 4);
    assert_eq!(sys_kill(&mut pending, 2), -1);
    assert_eq!(sys_kill(&mut none, 2), -1);
}

fn signals_with(pending: u32) -> ProcessSignals {
    ProcessSignals {
        signals: SignalFlags { bits: pending },
        signal_mask: SignalFlags { bits: 0 },
        handling_sig: -1,
        signal_actions: SignalActions::default(),
        killed: false,
        frozen: false,
        trap_ctx_backup: None,
    }
}

#[test]
fn kernel_signals_stop_continue_kill() {
    let mut cx = TrapContext::app_init_context(0x10, 0x20, 0, 0, 0, 0);
    let mut p = signals_with(SIGSTOP);
    assert!(handle_signals(&mut p, &mut cx));
    assert!(p.frozen);
    assert_eq!(p.signals.bits, 0);
    current_add_signal(&mut p, SignalFlags { bits: SIGCONT });
    assert!(!handle_signals(&mut p, &mut cx));
    assert!(!p.frozen);
    assert_eq!(p.signals.bits, 0);
    let mut k = signals_with(SIGKILL);
    assert!(!handle_signals(&mut k, &mut cx));
    assert!(k.killed);
}

#[test]
fn user_signal_enters_handler_and_returns() {
    let mut cx = TrapContext::app_init_context(0x10, 0x20, 0, 0, 0, 0);
    cx.x[10] = 99;
    let mut p = signals_with(1 << 10);
    p.signal_actions.table[10] = SignalAction { handler: 0x7000, mask: SignalFlags { bits: 0 } };
    check_pending_signals(&mut p, &mut cx);
    assert_eq!(cx.sepc, 0x7000);
    assert_eq!(cx.x[10], 10);
    assert_eq!(p.handling_sig, 10);
    assert_eq!(p.signals.bits, 0);
    assert_eq!(sys_sigreturn(&mut p, &mut cx), 99);
    assert_eq!(cx.sepc, 0x10);
    assert_eq!(p.handling_sig, -1);
}

#[test]
fn masked_signal_waits() {
    let mut cx = TrapContext::app_init_context(0x10, 0x20, 0, 0, 0, 0);
    let mut p = signals_with(1 << 10);
    p.signal_mask = SignalFlags { bits: 1 << 10 };
    p.signal_actions.table[10] = SignalAction { handler: 0x7000, mask: SignalFlags { bits: 0 } };
    check_pending_signals(&mut p, &mut cx);
    assert_eq!(cx.sepc, 0x10);
    assert_eq!(p.signals.bits, 1 << 10);
}

#[test]
fn thread_calls() {
    // the main thread holds tid 0; thread 33 gets tid 1
    let mut tids = RecycleAllocator::new();
    assert_eq!(tids.alloc_id(), 0);
    let mut tasks: Vec<Option<usize>> = vec![Some(7)];
    let mut m = TaskManager::new();
    let (tid, cx) = sys_thread_create(&mut tasks, &mut tids, &mut m, 33, 0x1000, 99, 0x10000, 5, 0x9000, 0x8000, 0x122);
    assert_eq!(tid, 1);
    assert_eq!(tasks, vec![Some(7), Some(33)]);
    assert_eq!(fetch_task(&mut m), Some(33));
    assert_eq!(cx.sepc, 0x1000);
    assert_eq!(cx.x[10], 99);
    assert_eq!(cx.x[2], 0x10000 + (PAGE_SIZE + USER_STACK_SIZE) + USER_STACK_SIZE);
    assert_eq!((cx.kernel_satp, cx.kernel_sp, cx.trap_handler, cx.sstatus), (5, 0x9000, 0x8000, 0x22));
    // a freed tid is handed out again
    tids.dealloc(1);
    tasks[1] = None;
    let (tid, _) = sys_thread_create(&mut tasks, &mut tids, &mut m, 34, 0x1000, 0, 0x10000, 5, 0x9000, 0x8000, 0);
    assert_eq!(tid, 1);
    assert_eq!(tasks, vec![Some(7), Some(34)]);
    assert_eq!(sys_gettid(5), 5);
    let mut exits: Vec<Option<Option<i32>>> = vec![Some(None), Some(Some(4)), None, Some(None)];
    assert_eq!(sys_waittid(&mut exits, 0, 0), -1);
    assert_eq!(sys_waittid(&mut exits, 0, 2), -1);
    assert_eq!(sys_waittid(&mut exits, 0, 3), -2);
    assert_eq!(sys_waittid(&mut exits, 0, 1), 4);
    assert_eq!(sys_waittid(&mut exits, 0, 9), -1);
    assert_eq!(exits.len(), 4);
    assert_eq!(exits[1], None);
}

#[test]
fn syscall_decoding() {
    assert!(syscall(SYSCALL_WRITE, [1, 0x1000, 5]) == Syscall::Write { fd: 1, buf: 0x1000, len: 5 });
    assert!(syscall(SYSCALL_EXIT, [3, 0, 0]) == Syscall::Exit { exit_code: 3 });
    assert!(syscall(SYSCALL_YIELD, [0, 0, 0]) == Syscall::Yield);
    assert!(syscall(SYSCALL_GET_TIME, [0, 0, 0]) == Syscall::GetTime);
    assert_eq!(sys_getpid(12), 12);
    assert_eq!(sys_get_time(1500), 1500);
}

#[test]
fn timers() {
    assert_eq!(get_time_ms(12_500_000), 1000);
    assert_eq!(get_time_ms(12_499), 0);
    assert_eq!(set_next_trigger(1000), 1000 + 125_000);
    let mut q: TimerQueue<&str> = TimerQueue::new();
    add_timer(&mut q, 30, "c");
    add_timer(&mut q, 10, "a");
    add_timer(&mut q, 20, "b");
    add_timer(&mut q, 10, "a2");
    assert_eq!(take_expired(&mut q, 5), Vec::<&str>::new());
    assert_eq!(take_expired(&mut q, 20), vec!["a", "a2", "b"]);
    assert_eq!(q.len(), 1);
    assert_eq!(take_expired(&mut q, 100), vec!["c"]);
    assert_eq!(q.len(), 0);
}

#[test]
fn spin_mutex() {
    let mut m = MutexSpin::new();
    assert!(m.lock());
    assert!(!m.lock());
    m.unlock();
    assert!(m.lock());
}

fn user_context() -> TrapContext {
    TrapContext::app_init_context(0x1000, 0x2000, 0, 0, 0, 0)
}

#[test]
fn user_ecall_decodes_the_call_and_skips_the_instruction() {
    let mut cx = user_context();
    cx.x[17] = SYSCALL_WRITE;
    cx.x[10] = 1;
    cx.x[11] = 0x4000;
    cx.x[12] = 5;
    let action = trap_user_handler(&mut cx, TrapCause::UserEnvCall);
    assert!(action == TrapAction::Syscall(Syscall::Write { fd: 1, buf: 0x4000, len: 5 }));
    assert_eq!(cx.sepc, 0x1004);
    cx.x[17] = 1234;
    assert!(trap_user_handler(&mut cx, TrapCause::UserEnvCall) == TrapAction::UnsupportedSyscall(1234));
    assert_eq!(cx.sepc, 0x1008);
}

#[test]
fn user_faults_and_timer() {
    let mut cx = user_context();
    assert!(trap_user_handler(&mut cx, TrapCause::StoreFault) == TrapAction::AppPageFault);
    assert!(trap_user_handler(&mut cx, TrapCause::StorePageFault) == TrapAction::AppPageFault);
    assert!(trap_user_handler(&mut cx, TrapCause::IllegalInstruction) == TrapAction::AppIllegalInstruction);
    assert!(trap_user_handler(&mut cx, TrapCause::SupervisorTimer) == TrapAction::Yield);
    assert!(trap_user_handler(&mut cx, TrapCause::Other) == TrapAction::UnsupportedTrap);
    assert_eq!(cx.sepc, 0x1000);
}

#[test]
fn kernel_traps_keep_the_context() {
    let mut cx = user_context();
    assert!(trap_kernel_handler(&mut cx, TrapCause::SupervisorTimer) == TrapAction::KernelTimer);
    assert!(trap_kernel_handler(&mut cx, TrapCause::StorePageFault) == TrapAction::KernelPageFault);
    assert!(trap_kernel_handler(&mut cx, TrapCause::UserEnvCall) == TrapAction::KernelUnknown);
    assert!(trap_handler(&mut cx, false, TrapCause::UserEnvCall) == TrapAction::KernelUnknown);
    assert_eq!(cx.sepc, 0x1000);
    cx.x[17] = SYSCALL_YIELD;
    assert!(trap_handler(&mut cx, true, TrapCause::UserEnvCall) == TrapAction::Syscall(Syscall::Yield));
    assert_eq!(cx.sepc, 0x1004);
}

#[test]
fn task_queue_is_first_in_first_out() {
    let mut m = TaskManager::new();
    assert_eq!(m.fetch(), None);
    m.add(3);
    add_task(&mut m, 1);
    m.add(3);
    m.add(2);
    remove_task(&mut m, 3);
    assert_eq!(fetch_task(&mut m), Some(1));
    assert_eq!(m.fetch(), Some(3));
    m.remove(7);
    assert_eq!(m.fetch(), Some(2));
    assert_eq!(m.fetch(), None);
}

#[test]
fn remove_timer_drops_only_that_task() {
    let mut q: TimerQueue<usize> = TimerQueue::new();
    add_timer(&mut q, 30, 1);
    add_timer(&mut q, 10, 2);
    add_timer(&mut q, 20, 1);
    add_timer(&mut q, 40, 3);
    remove_timer(&mut q, 1);
    assert_eq!(q.len(), 2);
    assert_eq!(take_expired(&mut q, 100), vec![2, 3]);
}

#[test]
fn make_pipe_links_both_ends() {
    let (ring, read_end, write_end) = make_pipe(7u32);
    assert_eq!(ring.available_read(), 0);
    assert!(!ring.all_write_ends_closed());
    assert!(read_end.readable() && !read_end.writable());
    assert!(write_end.writable() && !write_end.readable());
    assert_eq!(*read_end.buffer(), 7);
    assert_eq!(*write_end.buffer(), 7);
}

#[test]
fn batch_loads_apps_one_after_another() {
    let (app_base, app_limit) = (rcore::kernel::batch::APP_BASE_ADDRESS, rcore::kernel::batch::APP_SIZE_LIMIT);
    let base = 0x8000_0000usize;
    let mut mem = vec![0xEEu8; app_base - base + app_limit];
    // two images in the kernel's data
    let img0 = 0x100usize;
    let img1 = 0x110usize;
    for k in 0..0x10 {
        mem[img0 + k] = k as u8 + 1;
    }
    for k in 0..0x4 {
        mem[img1 + k] = 0xA0 + k as u8;
    }
    let mut manager = AppManager { num_app: 2, current_app: 0, app_start: [base + img0, base + img1, base + img1 + 4, 0, 0, 0, 0] };
    let dst = app_base - base;
    assert!(manager.run_next_app(&mut mem, base));
    assert_eq!(manager.get_current_app(), 1);
    assert_eq!(&mem[dst..dst + 0x10], &(1..=0x10).collect::<Vec<u8>>()[..]);
    assert!(mem[dst + 0x10..dst + app_limit].iter().all(|b| *b == 0));
    assert!(manager.run_next_app(&mut mem, base));
    assert_eq!(&mem[dst..dst + 4], &[0xA0, 0xA1, 0xA2, 0xA3]);
    assert!(mem[dst + 4..dst + app_limit].iter().all(|b| *b == 0));
    assert!(!manager.run_next_app(&mut mem, base));
    assert_eq!(manager.get_current_app(), 2);
    assert!(!manager.load_app(5, &mut mem, base));
}

#[test]
fn load_apps_fills_each_area() {
    let (app_base, app_limit) = (rcore::kernel::config::APP_BASE_ADDRESS, rcore::kernel::config::APP_SIZE_LIMIT);
    let base = 0x8000_0000usize;
    let mut mem = vec![0xEEu8; app_base - base + 3 * app_limit];
    mem[0x200..0x203].copy_from_slice(&[1, 2, 3]);
    mem[0x203..0x205].copy_from_slice(&[4, 5]);
    let starts = [base + 0x200, base + 0x203, base + 0x205];
    load_apps(2, &starts, &mut mem, base);
    let a0 = app_base - base;
    let a1 = a0 + app_limit;
    assert_eq!(&mem[a0..a0 + 3], &[1, 2, 3]);
    assert!(mem[a0 + 3..a1].iter().all(|b| *b == 0));
    assert_eq!(&mem[a1..a1 + 2], &[4, 5]);
    assert!(mem[a1 + 2..a1 + app_limit].iter().all(|b| *b == 0));
    // the third area is left alone
    assert!(mem[a1 + app_limit..].iter().all(|b| *b == 0xEE));
}

#[test]
fn scheduler_round_robin() {
    let mut p = Processor::new();
    let mut m = TaskManager::new();
    let mut status = vec![TaskStatus::UnInit; 3];
    assert_eq!(run_tasks_step(&mut p, &mut m, &mut status), None);
    assert_eq!(p.current(), None);
    wakeup_task(&mut m, &mut status, 2);
    wakeup_task(&mut m, &mut status, 0);
    assert!(status[2] == TaskStatus::Ready && status[0] == TaskStatus::Ready);
    assert_eq!(run_tasks_step(&mut p, &mut m, &mut status), Some(2));
    assert_eq!(p.current(), Some(2));
    assert!(status[2] == TaskStatus::Running);
    assert_eq!(suspend_current_and_run_next(&mut p, &mut m, &mut status), 2);
    assert_eq!(p.current(), None);
    assert!(status[2] == TaskStatus::Ready);
    assert_eq!(run_tasks_step(&mut p, &mut m, &mut status), Some(0));
    assert_eq!(p.take_current(), Some(0));
    assert_eq!(p.take_current(), None);
    assert_eq!(m.fetch(), Some(2));
}

#[test]
fn pid_table_records_and_forgets() {
    let mut map: BTreeMap<usize, &str> = BTreeMap::new();
    insert_into_pid2process(&mut map, 3, "init");
    insert_into_pid2process(&mut map, 5, "shell");
    assert_eq!(pid2process(&map, 3), Some(&"init"));
    assert_eq!(pid2process(&map, 4), None);
    remove_from_pid2process(&mut map, 3);
    assert_eq!(pid2process(&map, 3), None);
    assert_eq!(pid2process(&map, 5), Some(&"shell"));
}

fn process(pid: usize, parent: Option<usize>, children: Vec<usize>, tasks: Vec<Option<usize>>) -> ProcessRecord<u8, Vec<u8>> {
    ProcessRecord {
        pid,
        parent,
        children,
        is_zombie: false,
        exit_code: 0,
        tasks,
        fd_table: vec![Some(0), Some(1), Some(2)],
        memory_set: vec![pid as u8; 4],
        signals: SignalFlags { bits: 0 },
    }
}

fn thread(process: usize, tid: usize) -> ThreadRecord {
    ThreadRecord { process, tid, exit_code: None, has_res: true }
}

// Runs thread `t` on a fresh processor; `queued` are queued behind it.
fn running(t: usize, queued: &[usize], n: usize) -> (Processor, TaskManager) {
    let mut p = Processor::new();
    let mut m = TaskManager::new();
    let mut status = vec![TaskStatus::Ready; n];
    add_task(&mut m, t);
    for q in queued {
        add_task(&mut m, *q);
    }
    assert_eq!(run_tasks_step(&mut p, &mut m, &mut status), Some(t));
    (p, m)
}

#[test]
fn exit_of_a_secondary_thread_keeps_the_process() {
    // process 0 is the first one; process 1 has threads 1 and 2
    let mut processes = vec![process(0, None, vec![1], vec![Some(0)]), process(1, Some(0), vec![], vec![Some(1), Some(2)])];
    let mut threads = vec![thread(0, 0), thread(1, 0), thread(1, 1)];
    let mut pids: BTreeMap<usize, usize> = BTreeMap::new();
    insert_into_pid2process(&mut pids, 0, 0);
    insert_into_pid2process(&mut pids, 1, 1);
    let (mut p, mut m) = running(2, &[1], 3);
    let r = exit_current_and_run_next(&mut p, &mut m, &mut threads, &mut processes, &mut pids, 0, 7);
    assert!(matches!(r, ExitAction::Schedule));
    assert_eq!(p.current(), None);
    assert_eq!(threads[2].exit_code, Some(7));
    assert!(!threads[2].has_res);
    assert!(threads[1].has_res);
    assert!(!processes[1].is_zombie);
    assert_eq!(processes[1].tasks.len(), 2);
    assert_eq!(pid2process(&pids, 1), Some(&1));
    assert_eq!(fetch_task(&mut m), Some(1));
}

#[test]
fn exit_of_the_idle_process_powers_off() {
    let mut processes = vec![process(0, None, vec![], vec![Some(0)])];
    let mut threads = vec![thread(0, 0)];
    let mut pids: BTreeMap<usize, usize> = BTreeMap::new();
    insert_into_pid2process(&mut pids, 0, 0);
    let (mut p, mut m) = running(0, &[], 1);
    let r = exit_current_and_run_next(&mut p, &mut m, &mut threads, &mut processes, &mut pids, 0, 3);
    assert!(matches!(r, ExitAction::Shutdown { failure: true }));
    let (mut p, mut m) = running(0, &[], 1);
    threads[0].has_res = true;
    let r = exit_current_and_run_next(&mut p, &mut m, &mut threads, &mut processes, &mut pids, 0, 0);
    assert!(matches!(r, ExitAction::Shutdown { failure: false }));
    assert_eq!(pid2process(&pids, 0), Some(&0));
}

#[test]
fn exit_of_a_main_thread_ends_the_process() {
    // process 1 (pid 4) has children 2 and 3 and threads 1 and 2
    let mut processes = vec![
        process(0, None, vec![1], vec![Some(0)]),
        process(4, Some(0), vec![2, 3], vec![Some(1), Some(2)]),
        process(5, Some(1), vec![], vec![Some(3)]),
        process(6, Some(1), vec![], vec![Some(4)]),
    ];
    let mut threads = vec![thread(0, 0), thread(1, 0), thread(1, 1), thread(2, 0), thread(3, 0)];
    let mut pids: BTreeMap<usize, usize> = BTreeMap::new();
    for (i, pid) in [0usize, 4, 5, 6].iter().enumerate() {
        insert_into_pid2process(&mut pids, *pid, i);
    }
    let (mut p, mut m) = running(1, &[3, 2, 0], 5);
    let r = exit_current_and_run_next(&mut p, &mut m, &mut threads, &mut processes, &mut pids, 0, -2);
    assert!(matches!(r, ExitAction::Schedule));
    assert_eq!(pid2process(&pids, 4), None);
    assert_eq!(pid2process(&pids, 5), Some(&2));
    assert!(processes[1].is_zombie);
    assert_eq!(processes[1].exit_code, -2);
    assert!(processes[1].children.is_empty());
    assert!(processes[1].fd_table.is_empty());
    assert_eq!(processes[1].tasks, vec![Some(1)]);
    assert_eq!(processes[0].children, vec![1, 2, 3]);
    assert_eq!(processes[2].parent, Some(0));
    assert_eq!(processes[3].parent, Some(0));
    assert_eq!(processes[1].parent, Some(0));
    assert_eq!(threads[1].exit_code, Some(-2));
    assert!(!threads[1].has_res && !threads[2].has_res);
    assert!(threads[3].has_res && threads[0].has_res);
    // thread 2 left the ready queue; the others keep their order
    assert_eq!(fetch_task(&mut m), Some(3));
    assert_eq!(fetch_task(&mut m), Some(0));
    assert_eq!(fetch_task(&mut m), None);
}

#[test]
fn yield_requeues_the_running_task() {
    let (mut p, mut m) = running(1, &[0], 2);
    let mut status = vec![TaskStatus::Running; 2];
    assert_eq!(sys_yield(&mut p, &mut m, &mut status), 0);
    assert_eq!(p.current(), None);
    assert!(status[1] == TaskStatus::Ready);
    assert_eq!(fetch_task(&mut m), Some(0));
    assert_eq!(fetch_task(&mut m), Some(1));
}

#[test]
fn sys_exit_ends_a_process() {
    let mut processes = vec![process(0, None, vec![1], vec![Some(0)]), process(3, Some(0), vec![], vec![Some(1)])];
    let mut threads = vec![thread(0, 0), thread(1, 0)];
    let mut pids: BTreeMap<usize, usize> = BTreeMap::new();
    insert_into_pid2process(&mut pids, 0, 0);
    insert_into_pid2process(&mut pids, 3, 1);
    let (mut p, mut m) = running(1, &[], 2);
    assert!(matches!(sys_exit(&mut p, &mut m, &mut threads, &mut processes, &mut pids, 0, 9), ExitAction::Schedule));
    assert!(processes[1].is_zombie);
    assert_eq!(processes[1].exit_code, 9);
    assert_eq!(pid2process(&pids, 3), None);
}

#[test]
fn fd_table_copy_keeps_holes() {
    let fds = vec![Some(7u8), None, Some(9u8)];
    assert_eq!(copy_fd_table(&fds), vec![Some(7u8), None, Some(9u8)]);
    assert!(copy_fd_table::<u8>(&vec![]).is_empty());
}

#[test]
fn fork_adds_a_child_with_one_queued_thread() {
    let mut processes = vec![process(0, None, vec![1], vec![Some(0)]), process(1, Some(0), vec![], vec![Some(1)])];
    processes[1].fd_table = vec![Some(0), Some(1), None, Some(5)];
    processes[1].signals = SignalFlags { bits: SIGKILL };
    let mut threads = vec![thread(0, 0), thread(1, 0)];
    let mut pids_alloc = RecycleAllocator::new();
    assert_eq!(pid_alloc(&mut pids_alloc).0, 0);
    assert_eq!(pid_alloc(&mut pids_alloc).0, 1);
    let mut pids: BTreeMap<usize, usize> = BTreeMap::new();
    insert_into_pid2process(&mut pids, 0, 0);
    insert_into_pid2process(&mut pids, 1, 1);
    let mut m = TaskManager::new();
    let child = fork(&mut processes, &mut threads, &mut pids_alloc, &mut pids, &mut m, 1);
    assert_eq!(child, 2);
    assert_eq!(processes[2].pid, 2);
    assert_eq!(processes[2].parent, Some(1));
    assert_eq!(processes[2].fd_table, vec![Some(0), Some(1), None, Some(5)]);
    assert_eq!(processes[2].memory_set, processes[1].memory_set);
    assert_eq!(processes[2].signals.bits, 0);
    assert_eq!(processes[2].tasks, vec![Some(2)]);
    assert!(processes[2].children.is_empty() && !processes[2].is_zombie);
    assert_eq!(processes[1].children, vec![2]);
    assert_eq!(threads.len(), 3);
    assert_eq!((threads[2].process, threads[2].tid, threads[2].exit_code, threads[2].has_res), (2, 0, None, true));
    assert_eq!(pid2process(&pids, 2), Some(&2));
    assert_eq!(fetch_task(&mut m), Some(2));
    assert_eq!(fetch_task(&mut m), None);
}

#[test]
fn forked_child_exits_into_a_zombie_of_its_parent() {
    let mut processes = vec![process(0, None, vec![], vec![Some(0)])];
    let mut threads = vec![thread(0, 0)];
    let mut pids_alloc = RecycleAllocator::new();
    assert_eq!(pid_alloc(&mut pids_alloc).0, 0);
    let mut pids: BTreeMap<usize, usize> = BTreeMap::new();
    insert_into_pid2process(&mut pids, 0, 0);
    let (p0, mut m) = running(0, &[], 1);
    assert_eq!(sys_fork(&p0, &mut processes, &mut threads, &mut pids_alloc, &mut pids, &mut m), 1);
    assert_eq!(processes[0].children, vec![1]);
    // the child's thread runs and exits
    let mut p = Processor::new();
    let mut status = vec![TaskStatus::Ready; 2];
    assert_eq!(run_tasks_step(&mut p, &mut m, &mut status), Some(1));
    let r = exit_current_and_run_next(&mut p, &mut m, &mut threads, &mut processes, &mut pids, 0, 42);
    assert!(matches!(r, ExitAction::Schedule));
    assert!(processes[1].is_zombie);
    assert_eq!(processes[1].exit_code, 42);
    assert_eq!(processes[0].children, vec![1]);
    assert_eq!(pid2process(&pids, 1), None);
    // a new fork gets the next pid
    assert_eq!(pid_alloc(&mut pids_alloc).0, 2);
}

#[test]
fn program_break_moves_within_the_heap() {
    let mut brk: usize = 0x1000;
    // growing: the area is asked to end at the new break
    let r = change_program_brk(&mut brk, 0x1000, 0x20, |end, shrink| {
        assert_eq!(end, 0x1020);
        assert!(!shrink);
        true
    });
    assert_eq!(r, Some(0x1000));
    assert_eq!(brk, 0x1020);
    // shrinking below the bottom is refused without touching the area
    let r = change_program_brk(&mut brk, 0x1000, -0x21, |_, _| panic!("not called"));
    assert_eq!(r, None);
    assert_eq!(brk, 0x1020);
    // shrinking to the bottom
    let r = change_program_brk(&mut brk, 0x1000, -0x20, |end, shrink| end == 0x1000 && shrink);
    assert_eq!(r, Some(0x1020));
    assert_eq!(brk, 0x1000);
    // a failed resize keeps the break
    let r = change_program_brk(&mut brk, 0x1000, 8, |_, _| false);
    assert_eq!(r, None);
    assert_eq!(brk, 0x1000);
}

#[test]
fn new_process_opens_the_standard_files() {
    let mut processes: Vec<ProcessRecord<&str, Vec<u8>>> = Vec::new();
    let mut threads = Vec::new();
    let mut pids_alloc = RecycleAllocator::new();
    let mut pids: BTreeMap<usize, usize> = BTreeMap::new();
    let mut m = TaskManager::new();
    let p = new_process(&mut processes, &mut threads, &mut pids_alloc, &mut pids, &mut m, vec![7u8], "in", "out", "err");
    assert_eq!(p, 0);
    assert_eq!(processes[0].pid, 0);
    assert_eq!(processes[0].parent, None);
    assert_eq!(processes[0].fd_table, vec![Some("in"), Some("out"), Some("err")]);
    assert_eq!(processes[0].memory_set, vec![7u8]);
    assert_eq!(processes[0].tasks, vec![Some(0)]);
    assert_eq!((threads[0].process, threads[0].tid, threads[0].has_res), (0, 0, true));
    assert_eq!(pid2process(&pids, 0), Some(&0));
    assert_eq!(fetch_task(&mut m), Some(0));
    let q = new_process(&mut processes, &mut threads, &mut pids_alloc, &mut pids, &mut m, vec![], "in", "out", "err");
    assert_eq!((q, processes[1].pid), (1, 1));
}

#[test]
fn check_timer_wakes_the_expired_tasks_in_deadline_order() {
    let mut q = TimerQueue::new();
    add_timer(&mut q, 30, 2usize);
    add_timer(&mut q, 10, 0usize);
    add_timer(&mut q, 50, 1usize);
    let mut m = TaskManager::new();
    add_task(&mut m, 3);
    let mut status = vec![TaskStatus::UnInit; 4];
    check_timer(&mut q, 30, &mut m, &mut status);
    assert_eq!(q.len(), 1);
    assert!(status[0] == TaskStatus::Ready && status[2] == TaskStatus::Ready);
    assert!(status[1] == TaskStatus::UnInit && status[3] == TaskStatus::UnInit);
    assert_eq!(fetch_task(&mut m), Some(3));
    assert_eq!(fetch_task(&mut m), Some(0));
    assert_eq!(fetch_task(&mut m), Some(2));
    assert_eq!(fetch_task(&mut m), None);
}

#[test]
fn shell_edits_and_runs_lines() {
    let mut line: Vec<u8> = Vec::new();
    assert!(matches!(shell_step(&mut line, b'l'), ShellAction::Echo(b'l')));
    assert!(matches!(shell_step(&mut line, b's'), ShellAction::Echo(b's')));
    assert!(matches!(shell_step(&mut line, b'x'), ShellAction::Echo(b'x')));
    assert!(matches!(shell_step(&mut line, BS), ShellAction::Erase));
    assert_eq!(line, b"ls".to_vec());
    match shell_step(&mut line, CR) {
        ShellAction::Run(cmd) => assert_eq!(cmd, b"ls\0".to_vec()),
        _ => panic!("the line runs"),
    }
    assert!(line.is_empty());
    assert!(matches!(shell_step(&mut line, LF), ShellAction::Prompt));
    assert!(matches!(shell_step(&mut line, DL), ShellAction::Nothing));
}

#[test]
fn exec_context_passes_argc_and_argv() {
    let cx = exec_context(0x1000, 0x2000, 3, 0x2010, 7, 0x9000, 0x8000, 0x100);
    assert_eq!((cx.sepc, cx.x[2], cx.x[10], cx.x[11]), (0x1000, 0x2000, 3, 0x2010));
    assert_eq!(cx.x[1], 0);
    assert_eq!((cx.kernel_satp, cx.kernel_sp, cx.trap_handler, cx.sstatus), (7, 0x9000, 0x8000, 0));
}
