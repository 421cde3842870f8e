//! Thread calls, over the thread table of the calling process: slot `tid`
//! holds thread `tid`, if it exists.
use super::super::config::{PAGE_SIZE, USER_STACK_SIZE};
use super::super::id::{handed_out, ustack_bottom_from_tid, RecycleAllocator};
use super::super::task::manager::{add_task, TaskManager};
use super::super::trap::context::{TrapContext, SSTATUS_SPP};
use vstd::prelude::*;

verus! {

/// Puts `new_task` in slot `new_tid` of `tasks`, growing the table with
/// empty slots as needed.
fn place_task<T>(tasks: &mut Vec<Option<T>>, new_tid: usize, new_task: T)
    requires
        new_tid < usize::MAX,
    ensures
        final(tasks)@.len() == if old(tasks)@.len() > new_tid { old(tasks)@.len() } else { (new_tid + 1) as nat },
        final(tasks)@[new_tid as int] == Some(new_task),
        forall|i: int| 0 <= i < final(tasks)@.len() && i != new_tid ==> #[trigger] final(tasks)@[i] == if i < old(tasks)@.len() {
            old(tasks)@[i]
        } else {
            None
        },
{
    while tasks.len() < new_tid + 1
        invariant
            new_tid < usize::MAX,
            old(tasks)@.len() <= tasks@.len(),
            tasks@.len() <= if old(tasks)@.len() > new_tid { old(tasks)@.len() } else { (new_tid + 1) as nat },
            forall|i: int| 0 <= i < tasks@.len() ==> #[trigger] tasks@[i] == if i < old(tasks)@.len() {
                old(tasks)@[i]
            } else {
                None
            },
        decreases new_tid + 1 - tasks@.len(),
    {
        tasks.push(None);
    }
    tasks.set(new_tid, Some(new_task));
}

/// Creates a thread of the calling process: thread `new_task` gets a thread id
/// from the process's `tid_allocator`, not in use by any of its threads, is
/// queued to run and put in slot tid of `tasks` (growing the table with
/// empty slots as needed). Returns the tid and the thread's initial trap
/// context: it starts at `entry` with `arg` in `a0`, on its own user stack
/// above `ustack_base`, with kernel stack top `kstack_top`.
pub fn sys_thread_create(
    tasks: &mut Vec<Option<usize>>,
    tid_allocator: &mut RecycleAllocator,
    manager: &mut TaskManager,
    new_task: usize,
    entry: usize,
    arg: usize,
    ustack_base: usize,
    kernel_satp: usize,
    kstack_top: usize,
    trap_handler: usize,
    sstatus: usize,
) -> (r: (isize, TrapContext))
    requires
        old(tid_allocator).wf(),
        old(tid_allocator).recycled().len() == 0 ==> old(tid_allocator).next() < isize::MAX,
        forall|i: usize| i < old(tasks)@.len() && old(tasks)@[i as int] is Some ==> #[trigger] old(tid_allocator).in_use(i),
        ustack_base + old(tid_allocator).next() * (PAGE_SIZE + USER_STACK_SIZE) + USER_STACK_SIZE <= usize::MAX,
    ensures
        ({
            let tid = r.0 as usize;
            &&& handed_out(*old(tid_allocator), *final(tid_allocator), tid)
            &&& final(tid_allocator).wf()
            &&& !old(tid_allocator).in_use(tid)
            &&& r.0 >= 0
            &&& tid < old(tasks)@.len() ==> old(tasks)@[tid as int] is None
            &&& final(tasks)@.len() == if old(tasks)@.len() > tid { old(tasks)@.len() } else { (tid + 1) as nat }
            &&& final(tasks)@[tid as int] == Some(new_task)
            &&& forall|i: int| 0 <= i < final(tasks)@.len() && i != tid ==> #[trigger] final(tasks)@[i] == if i < old(tasks)@.len() {
                old(tasks)@[i]
            } else {
                None
            }
            &&& final(manager).queue() == old(manager).queue().push(new_task)
            &&& r.1.sepc == entry
            &&& r.1.x@[10] == arg
            &&& r.1.x@[2] == ustack_base + tid * (PAGE_SIZE + USER_STACK_SIZE) + USER_STACK_SIZE
            &&& forall|i: int| 0 <= i < 32 && i != 2 && i != 10 ==> #[trigger] r.1.x@[i] == 0
            &&& r.1.sstatus == sstatus & !SSTATUS_SPP
            &&& r.1.kernel_satp == kernel_satp
            &&& r.1.kernel_sp == kstack_top
            &&& r.1.trap_handler == trap_handler
        }),
{
    let tid = tid_allocator.alloc_id();
    proof {
        if old(tid_allocator).recycled().len() > 0 {
            let rec = old(tid_allocator).recycled();
            assert(rec[rec.len() - 1] < old(tid_allocator).next());
        }
        let nx = old(tid_allocator).next();
        assert(tid <= nx);
        assert(tid * (PAGE_SIZE + USER_STACK_SIZE) <= nx * (PAGE_SIZE + USER_STACK_SIZE)) by (nonlinear_arith)
            requires
                tid <= nx,
        ;
        let c = PAGE_SIZE + USER_STACK_SIZE;
        assert(tid <= isize::MAX) by (nonlinear_arith)
            requires
                tid * c <= usize::MAX,
                c >= 2,
                usize::MAX <= 2 * isize::MAX + 1,
        ;
        if tid < old(tasks)@.len() && old(tasks)@[tid as int] is Some {
            assert(old(tid_allocator).in_use(tid));
        }
    }
    add_task(manager, new_task);
    place_task(tasks, tid, new_task);
    let ustack_top = ustack_bottom_from_tid(ustack_base, tid) + USER_STACK_SIZE;
    let mut cx = TrapContext::app_init_context(entry, ustack_top, kernel_satp, kstack_top, trap_handler, sstatus);
    cx.x[10] = arg;
    (tid as isize, cx)
}

/// The calling thread's id, as a call result.
pub fn sys_gettid(tid: usize) -> (r: isize)
    ensures
        r == tid as isize,
{
    tid as isize
}

/// Waits for thread `tid` of the process, whose slot holds its exit code once
/// it has exited: -1 when `tid` is the caller `current_tid` or no such thread
/// exists; -2 when it has not exited; otherwise its slot is emptied and its
/// exit code returned.
pub fn sys_waittid(tasks: &mut Vec<Option<Option<i32>>>, current_tid: usize, tid: usize) -> (r: i32)
    ensures
        current_tid == tid ==> r == -1 && final(tasks)@ == old(tasks)@,
        current_tid != tid && tid >= old(tasks)@.len() ==> r == -1 && final(tasks)@ == old(tasks)@,
        current_tid != tid && tid < old(tasks)@.len() ==> match old(tasks)@[tid as int] {
            None => r == -1 && final(tasks)@ == old(tasks)@,
            Some(None) => r == -2 && final(tasks)@ == old(tasks)@,
            Some(Some(code)) => r == code && final(tasks)@ == old(tasks)@.update(tid as int, None),
        },
{
    if current_tid == tid || tid >= tasks.len() {
        return -1;
    }
    let mut exit_code: Option<i32> = None;
    match &tasks[tid] {
        Some(waited) => {
            if let Some(code) = waited {
                exit_code = Some(*code);
            }
        },
        None => {
            return -1;
        },
    }
    if let Some(code) = exit_code {
        tasks.set(tid, None);
        code
    } else {
        -2
    }
}

} // verus!
