//! Process and signal calls: what each decides, over the calling task's state.
use super::super::task::action::{SignalAction, SignalActions};
use super::super::id::RecycleAllocator;
use super::super::task::lifecycle::{exit_current_and_run_next, exit_done, exit_ready, fork, fork_done, pids_in_use, ExitAction, ProcessRecord, ThreadRecord};
use super::super::task::manager::TaskManager;
use super::super::task::processor::{queue_known, suspend_current_and_run_next, Processor};
use super::super::task::signal::{SignalFlags, MAX_SIG, SIGKILL, SIGSTOP};
use super::super::task::task::TaskStatus;
use std::collections::BTreeMap;
use vstd::prelude::*;

verus! {

/// A child of the calling process, as `sys_waitpid` sees it.
#[derive(PartialEq, Eq, Structural, Clone, Copy)]
pub struct Child {
    pub pid: usize,
    pub is_zombie: bool,
    pub exit_code: i32,
}

/// Child `c` is one `pid` asks for: `-1` asks for any.
pub open spec fn wanted(pid: isize, c: Child) -> bool {
    pid == -1 || pid as usize == c.pid
}

/// Index of the first child among `i..` that is a zombie `pid` asks for, or the count.
pub open spec fn first_zombie(children: Seq<Child>, pid: isize, i: int) -> int
    decreases children.len() - i,
{
    if i >= children.len() {
        children.len() as int
    } else if children[i].is_zombie && wanted(pid, children[i]) {
        i
    } else {
        first_zombie(children, pid, i + 1)
    }
}

proof fn lemma_first_zombie(children: Seq<Child>, pid: isize, i: int)
    requires
        0 <= i <= children.len(),
    ensures
        i <= first_zombie(children, pid, i) <= children.len(),
        first_zombie(children, pid, i) < children.len() ==> children[first_zombie(children, pid, i)].is_zombie
            && wanted(pid, children[first_zombie(children, pid, i)]),
    decreases children.len() - i,
{
    if i < children.len() && !(children[i].is_zombie && wanted(pid, children[i])) {
        lemma_first_zombie(children, pid, i + 1);
    }
}

/// Waits for child `pid` (any child for `-1`): -1 when no child is the one
/// asked for; -2 when none of them has exited yet; otherwise the first such
/// zombie leaves `children`, and its pid is returned along with its exit code,
/// to be stored at the caller's exit-code address.
pub fn sys_waitpid(children: &mut Vec<Child>, pid: isize) -> (r: (isize, Option<i32>))
    ensures
        !(exists|i: int| 0 <= i < old(children)@.len() && wanted(pid, #[trigger] old(children)@[i])) ==> r == (
        -1isize,
        None::<i32>,
        ) && final(children)@ == old(children)@,
        (exists|i: int| 0 <= i < old(children)@.len() && wanted(pid, #[trigger] old(children)@[i])) ==> {
            let k = first_zombie(old(children)@, pid, 0);
            if k < old(children)@.len() {
                let c = old(children)@[k];
                &&& r == (c.pid as isize, Some(c.exit_code))
                &&& final(children)@ == old(children)@.remove(k)
            } else {
                &&& r == (-2isize, None::<i32>)
                &&& final(children)@ == old(children)@
            }
        },
{
    let mut found = false;
    let mut i: usize = 0;
    while i < children.len()
        invariant
            i <= children@.len(),
            children@ == old(children)@,
            found <==> exists|j: int| 0 <= j < i && wanted(pid, #[trigger] children@[j]),
        decreases children@.len() - i,
    {
        let w = pid == -1 || pid as usize == children[i].pid;
        assert(w == wanted(pid, children@[i as int]));
        if w {
            found = true;
        }
        proof {
            assert((exists|j: int| 0 <= j < i + 1 && wanted(pid, #[trigger] children@[j])) <==> ((exists|j: int|
                0 <= j < i && wanted(pid, #[trigger] children@[j])) || w)) by {
                if w {
                    assert(wanted(pid, children@[i as int]));
                }
                if exists|j: int| 0 <= j < i + 1 && wanted(pid, #[trigger] children@[j]) {
                    let j = choose|j: int| 0 <= j < i + 1 && wanted(pid, #[trigger] children@[j]);
                    if j < i {
                        assert(exists|j: int| 0 <= j < i && wanted(pid, #[trigger] children@[j]));
                    }
                }
            }
        }
        i += 1;
    }
    if !found {
        return (-1, None);
    }
    proof {
        lemma_first_zombie(children@, pid, 0);
    }
    let mut idx: usize = 0;
    while idx < children.len()
        invariant
            idx <= children@.len(),
            children@ == old(children)@,
            first_zombie(children@, pid, 0) == first_zombie(children@, pid, idx as int),
        decreases children@.len() - idx,
    {
        let c = children[idx];
        if c.is_zombie && (pid == -1 || pid as usize == c.pid) {
            let child = children.remove(idx);
            return (child.pid as isize, Some(child.exit_code));
        }
        idx += 1;
    }
    (-2, None)
}

/// Whether a request to set the handler of `signal` is wrong: a null handler
/// or result address, or a signal whose handling only the kernel decides.
pub fn check_sigaction_error(signal: SignalFlags, action: usize, old_action: usize) -> (r: bool)
    ensures
        r == (action == 0 || old_action == 0 || signal.bits == SIGKILL || signal.bits == SIGSTOP),
{
    if action == 0 || old_action == 0 || signal.bits == SIGKILL || signal.bits == SIGSTOP {
        true
    } else {
        false
    }
}

/// Sets the handler of signal `signum` to the one at user address `action`,
/// which `read_action` reads, and returns 0 with the handler it replaces, to be
/// stored at user address `old_action`; -1 when the signal number is out of
/// range or the request is wrong (see [`check_sigaction_error`]).
pub fn sys_sigaction<R: FnOnce() -> SignalAction>(
    actions: &mut SignalActions,
    signum: i32,
    action: usize,
    old_action: usize,
    read_action: R,
) -> (r: (isize, Option<SignalAction>))
    requires
        read_action.requires(()),
    ensures
        ({
            let in_range = 0 <= signum <= MAX_SIG;
            let wrong = action == 0 || old_action == 0 || signum == 9 || signum == 19;
            &&& !in_range || wrong ==> r == (-1isize, None::<SignalAction>) && final(actions).table@
                == old(actions).table@
            &&& in_range && !wrong ==> r == (0isize, Some(old(actions).table@[signum as int])) && exists|a: SignalAction|
                #[trigger] read_action.ensures((), a) && final(actions).table@ == old(actions).table@.update(signum as int, a)
        }),
{
    if signum < 0 || signum as usize > MAX_SIG {
        return (-1, None);
    }
    let bit: u32 = 1u32 << (signum as u32);
    proof {
        let s = signum as u32;
        assert(s < 32);
        assert(((1u32 << s) == 0x200u32) <==> (s == 9)) by (bit_vector)
            requires
                s < 32,
        ;
        assert(((1u32 << s) == 0x80000u32) <==> (s == 19)) by (bit_vector)
            requires
                s < 32,
        ;
    }
    match SignalFlags::from_bits(bit) {
        Some(flag) => {
            if check_sigaction_error(flag, action, old_action) {
                (-1, None)
            } else {
                let prev_action = actions.table[signum as usize];
                let new_action = read_action();
                actions.table[signum as usize] = new_action;
                (0, Some(prev_action))
            }
        },
        None => (-1, None),
    }
}

/// Sets the signal mask of the calling task, if there is one, to `mask` and
/// returns the mask it had; -1 when there is no task.
pub fn sys_sigprocmask(signal_mask: &mut Option<SignalFlags>, mask: u32) -> (r: isize)
    ensures
        (*old(signal_mask)) is None ==> r == -1 && *final(signal_mask) == *old(signal_mask),
        (*old(signal_mask)) is Some ==> r == (*old(signal_mask)).unwrap().bits as isize && *final(signal_mask) == Some(
            SignalFlags { bits: mask },
        ),
{
    match signal_mask {
        Some(current) => {
            let old_mask = *current;
            match SignalFlags::from_bits(mask) {
                Some(flag) => {
                    *current = flag;
                    old_mask.bits() as isize
                },
                None => -1,
            }
        },
        None => -1,
    }
}

/// Sends signal `signum` to the task whose pending signals are `signals`, if
/// there is such a task: 0, or -1 when there is none or the signal is already
/// pending.
pub fn sys_kill(signals: &mut Option<SignalFlags>, signum: i32) -> (r: isize)
    requires
        (*old(signals)) is Some ==> 0 <= signum < 32,
    ensures
        (*old(signals)) is None ==> r == -1 && *final(signals) == *old(signals),
        (*old(signals)) is Some ==> {
            let bit = 1u32 << (signum as u32);
            let pending = (*old(signals)).unwrap().bits;
            if pending & bit == bit {
                r == -1 && *final(signals) == *old(signals)
            } else {
                r == 0 && *final(signals) == Some(SignalFlags { bits: pending | bit })
            }
        },
{
    match signals {
        Some(pending) => {
            match SignalFlags::from_bits(1u32 << (signum as u32)) {
                Some(flag) => {
                    if pending.contains(flag) {
                        return -1;
                    }
                    pending.insert(flag);
                    0
                },
                None => -1,
            }
        },
        None => -1,
    }
}

/// The calling task's process id, as a call result.
pub fn sys_getpid(pid: usize) -> (r: isize)
    ensures
        r == pid as isize,
{
    pid as isize
}

/// Gives up the processor: the running task goes back to the end of the
/// ready queue, marked ready, and the caller switches to the scheduler.
/// Returns 0, what the task sees once it runs again.
pub fn sys_yield(processor: &mut Processor, manager: &mut TaskManager, status: &mut Vec<TaskStatus>) -> (r: isize)
    requires
        old(processor).running() matches Some(t) && t < old(status)@.len(),
        queue_known(old(manager).queue(), old(status)@.len() as int),
    ensures
        r == 0,
        final(processor).running() is None,
        final(manager).queue() == old(manager).queue().push(old(processor).running()->0),
        final(status)@ == old(status)@.update(old(processor).running()->0 as int, TaskStatus::Ready),
{
    suspend_current_and_run_next(processor, manager, status);
    0
}

/// Ends the running thread with `exit_code`: the exit bookkeeping, after
/// which the caller does what the returned action says and never comes back
/// to the thread.
pub fn sys_exit<F, M>(
    processor: &mut Processor,
    manager: &mut TaskManager,
    threads: &mut Vec<ThreadRecord>,
    processes: &mut Vec<ProcessRecord<F, M>>,
    pid_table: &mut BTreeMap<usize, usize>,
    initproc: usize,
    exit_code: i32,
) -> (r: ExitAction)
    requires
        exit_ready(old(processor).running(), old(threads)@, old(processes)@, old(pid_table)@, initproc),
    ensures
        final(processor).running() is None,
        exit_done(
            old(processor).running()->0,
            old(threads)@,
            final(threads)@,
            old(processes)@,
            final(processes)@,
            old(pid_table)@,
            final(pid_table)@,
            old(manager).queue(),
            final(manager).queue(),
            initproc,
            exit_code,
            r,
        ),
{
    exit_current_and_run_next(processor, manager, threads, processes, pid_table, initproc, exit_code)
}

/// The current time in milliseconds, as a call result.
pub fn sys_get_time(time_ms: usize) -> (r: isize)
    ensures
        r == time_ms as isize,
{
    time_ms as isize
}

/// Forks the process of the running thread, which must be its only thread,
/// and returns the child's pid to the caller.
pub fn sys_fork<F: Clone, M: Clone>(
    processor: &Processor,
    processes: &mut Vec<ProcessRecord<F, M>>,
    threads: &mut Vec<ThreadRecord>,
    pid_allocator: &mut RecycleAllocator,
    pid_table: &mut BTreeMap<usize, usize>,
    manager: &mut TaskManager,
) -> (r: isize)
    requires
        processor.running() matches Some(t) && t < old(threads)@.len() && old(threads)@[t as int].process < old(
            processes,
        )@.len() && old(processes)@[old(threads)@[t as int].process as int].tasks@.len() == 1,
        old(processes)@.len() < usize::MAX,
        old(threads)@.len() < usize::MAX,
        old(pid_allocator).wf(),
        old(pid_allocator).recycled().len() == 0 ==> old(pid_allocator).next() < usize::MAX,
        pids_in_use(old(processes)@, *old(pid_allocator)),
    ensures
        fork_done(
            old(threads)@[processor.running()->0 as int].process,
            old(processes)@,
            final(processes)@,
            old(threads)@,
            final(threads)@,
            *old(pid_allocator),
            *final(pid_allocator),
            old(pid_table)@,
            final(pid_table)@,
            old(manager).queue(),
            final(manager).queue(),
            old(processes)@.len() as usize,
        ),
        r == final(processes)@[old(processes)@.len() as int].pid as isize,
{
    let t = match processor.current() {
        Some(t) => t,
        None => {
            proof {
                assert(false);
            }
            0
        },
    };
    let p = threads[t].process;
    let child = fork(processes, threads, pid_allocator, pid_table, manager, p);
    processes[child].pid as isize
}

} // verus!
