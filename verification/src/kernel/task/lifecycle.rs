//! The end of a thread, and of its process when it is the main thread: the
//! bookkeeping that the exit path does before it switches away for good.
//!
//! Processes and threads are named by their index in a table of records;
//! `initproc` is the index of the first process, the one that adopts orphans.
use super::manager::{add_task, first_index, insert_into_pid2process, remove_from_pid2process, remove_task, TaskManager};
use super::processor::Processor;
use super::signal::SignalFlags;
use crate::kernel::id::{handed_out, pid_alloc, RecycleAllocator, IDLE_PID};
use std::collections::BTreeMap;
use vstd::prelude::*;

verus! {

/// A thread as the exit path sees it.
pub struct ThreadRecord {
    /// Its process, by index.
    pub process: usize,
    pub tid: usize,
    pub exit_code: Option<i32>,
    /// It still holds its user resources: its id, user stack and trap context.
    pub has_res: bool,
}

/// A process as the exit path sees it.
pub struct ProcessRecord<F, M> {
    pub pid: usize,
    /// Its parent, by index.
    pub parent: Option<usize>,
    /// Its children, by index.
    pub children: Vec<usize>,
    pub is_zombie: bool,
    pub exit_code: i32,
    /// Its threads by thread id, each by index.
    pub tasks: Vec<Option<usize>>,
    pub fd_table: Vec<Option<F>>,
    /// Its address space.
    pub memory_set: M,
    /// The signals it has received and not handled yet.
    pub signals: SignalFlags,
}

/// What the caller does once the exit bookkeeping is done.
pub enum ExitAction {
    /// The idle process ended: power off, reporting a failure when its exit
    /// code was not zero.
    Shutdown { failure: bool },
    /// Switch to the scheduler; the exited thread does not run again.
    Schedule,
}

/// `q` with the first `t` in it taken out, if there is one.
pub open spec fn queue_without(q: Seq<usize>, t: usize) -> Seq<usize> {
    if first_index(q, t) < q.len() {
        q.remove(first_index(q, t))
    } else {
        q
    }
}

/// `q` with the threads of `tasks` taken out, one after the other.
pub open spec fn queue_without_all(q: Seq<usize>, tasks: Seq<Option<usize>>) -> Seq<usize>
    decreases tasks.len(),
{
    if tasks.len() == 0 {
        q
    } else {
        let rest = queue_without_all(q, tasks.drop_last());
        match tasks.last() {
            Some(t) => queue_without(rest, t),
            None => rest,
        }
    }
}

/// Thread `k` is one of the first `n` entries of `tasks`.
pub open spec fn listed(tasks: Seq<Option<usize>>, n: int, k: usize) -> bool {
    exists|j: int| 0 <= j < n && #[trigger] tasks[j] == Some(k)
}

/// `b` is `a` with its user resources released.
pub open spec fn released(a: ThreadRecord, b: ThreadRecord) -> bool {
    &&& b.process == a.process
    &&& b.tid == a.tid
    &&& b.exit_code == a.exit_code
    &&& !b.has_res
}

/// The two records agree on all but the parent and the children.
pub open spec fn same_but_family<F, M>(a: ProcessRecord<F, M>, b: ProcessRecord<F, M>) -> bool {
    &&& b.pid == a.pid
    &&& b.is_zombie == a.is_zombie
    &&& b.exit_code == a.exit_code
    &&& b.tasks@ == a.tasks@
    &&& b.fd_table@ == a.fd_table@
    &&& b.memory_set == a.memory_set
    &&& b.signals == a.signals
}

/// The indices that the tables hold point into them.
pub open spec fn tables_ok<F, M>(threads: Seq<ThreadRecord>, processes: Seq<ProcessRecord<F, M>>) -> bool {
    &&& forall|i: int| 0 <= i < threads.len() ==> (#[trigger] threads[i]).process < processes.len()
    &&& forall|q: int, j: int|
        0 <= q < processes.len() && 0 <= j < processes[q].children@.len() ==> #[trigger] processes[q].children@[j]
            < processes.len()
    &&& forall|q: int, j: int|
        0 <= q < processes.len() && 0 <= j < processes[q].tasks@.len() && processes[q].tasks@[j] is Some
            ==> (#[trigger] processes[q].tasks@[j])->0 < threads.len()
}

/// Thread `running` can exit: it runs and holds its user resources, the
/// tables are consistent, `initproc` is the idle process, and the pid of a
/// process that ends with it is in the pid table.
pub open spec fn exit_ready<F, M>(
    running: Option<usize>,
    threads: Seq<ThreadRecord>,
    processes: Seq<ProcessRecord<F, M>>,
    pids: Map<usize, usize>,
    initproc: usize,
) -> bool {
    &&& running matches Some(t) && t < threads.len() && threads[t as int].has_res
    &&& tables_ok(threads, processes)
    &&& initproc < processes.len()
    &&& processes[initproc as int].pid == IDLE_PID
    &&& {
        let t = running->0;
        let p = threads[t as int].process;
        threads[t as int].tid == 0 && processes[p as int].pid != IDLE_PID ==> pids.contains_key(processes[p as int].pid)
    }
}

/// What the exit of thread `t` with `exit_code` leaves: the threads `th0`,
/// processes `pr0`, pid table `pids0` and ready queue `q0` become `th1`, `pr1`,
/// `pids1` and `q1`, and `r` is what the caller does next.
pub open spec fn exit_done<F, M>(
    t: usize,
    th0: Seq<ThreadRecord>,
    th1: Seq<ThreadRecord>,
    pr0: Seq<ProcessRecord<F, M>>,
    pr1: Seq<ProcessRecord<F, M>>,
    pids0: Map<usize, usize>,
    pids1: Map<usize, usize>,
    q0: Seq<usize>,
    q1: Seq<usize>,
    initproc: usize,
    exit_code: i32,
    r: ExitAction,
) -> bool {
    let p = th0[t as int].process;
    let main = th0[t as int].tid == 0;
    let pid = pr0[p as int].pid;
    let ended = pr0[p as int];
    let me = (ThreadRecord {
        process: p,
        tid: th0[t as int].tid,
        exit_code: Some(exit_code),
        has_res: false,
    });
    if !main || pid == IDLE_PID {
        &&& r == if main {
            ExitAction::Shutdown { failure: exit_code != 0 }
        } else {
            ExitAction::Schedule
        }
        &&& th1 == th0.update(t as int, me)
        &&& pr1 == pr0
        &&& pids1 == pids0
        &&& q1 == q0
    } else {
        &&& r == ExitAction::Schedule
        &&& pids1 == pids0.remove(pid)
        &&& q1 == queue_without_all(q0, ended.tasks@)
        &&& th1.len() == th0.len()
        &&& th1[t as int] == me
        &&& forall|k: usize|
            k < th0.len() && k != t ==> if listed(ended.tasks@, ended.tasks@.len() as int, k) {
                released(th0[k as int], #[trigger] th1[k as int])
            } else {
                th1[k as int] == th0[k as int]
            }
        &&& pr1.len() == pr0.len()
        &&& pr1[p as int].pid == pid
        &&& pr1[p as int].is_zombie
        &&& pr1[p as int].exit_code == exit_code
        &&& pr1[p as int].children@.len() == 0
        &&& pr1[p as int].fd_table@.len() == 0
        &&& pr1[p as int].tasks@ == ended.tasks@.take(
            if ended.tasks@.len() == 0 {
                0int
            } else {
                1int
            },
        )
        &&& pr1[initproc as int].children@ == pr0[initproc as int].children@
            + ended.children@
        &&& forall|q: usize|
            q < pr0.len() ==> (#[trigger] pr1[q as int]).parent == if ended.children@.contains(
                q,
            ) {
                Some(initproc)
            } else {
                pr0[q as int].parent
            }
        &&& forall|q: usize|
            q < pr0.len() && q != p ==> same_but_family(
                pr0[q as int],
                #[trigger] pr1[q as int],
            )
        &&& forall|q: usize|
            q < pr0.len() && q != p && q != initproc
                ==> (#[trigger] pr1[q as int]).children@ == pr0[q as int].children@
    }
}

/// Where `first_index` points: at the first `t` of `q`, or past the end when
/// `q` holds none.
proof fn lemma_first_index_found(q: Seq<usize>, t: usize)
    ensures
        0 <= first_index(q, t) <= q.len(),
        first_index(q, t) < q.len() ==> q[first_index(q, t)] == t,
        forall|j: int| 0 <= j < first_index(q, t) ==> q[j] != t,
    decreases q.len(),
{
    if q.len() > 0 && q[0] != t {
        lemma_first_index_found(q.drop_first(), t);
        assert forall|j: int| 0 <= j < first_index(q, t) implies q[j] != t by {
            if j > 0 {
                assert(q[j] == q.drop_first()[j - 1]);
            }
        }
    }
}

/// Taking `t` out of a queue in which nothing waits twice leaves a queue in
/// which nothing waits twice, and which holds all but `t`.
proof fn lemma_queue_without(q: Seq<usize>, t: usize)
    requires
        q.no_duplicates(),
    ensures
        queue_without(q, t).no_duplicates(),
        forall|k: usize| #[trigger] queue_without(q, t).contains(k) <==> q.contains(k) && k != t,
{
    lemma_first_index_found(q, t);
    let i = first_index(q, t);
    if i < q.len() {
        let r = q.remove(i);
        assert forall|a: int, b: int| 0 <= a < r.len() && 0 <= b < r.len() && a != b implies r[a] != r[b] by {
            let a0 = if a < i { a } else { a + 1 };
            let b0 = if b < i { b } else { b + 1 };
            assert(r[a] == q[a0] && r[b] == q[b0]);
        }
        assert forall|k: usize| #[trigger] r.contains(k) <==> q.contains(k) && k != t by {
            if r.contains(k) {
                let a = choose|a: int| 0 <= a < r.len() && r[a] == k;
                let a0 = if a < i { a } else { a + 1 };
                assert(q[a0] == k);
                assert(a0 != i);
            }
            if q.contains(k) && k != t {
                let a0 = choose|a0: int| 0 <= a0 < q.len() && q[a0] == k;
                assert(a0 != i);
                let a = if a0 < i { a0 } else { a0 - 1 };
                assert(r[a] == k);
            }
        }
    } else {
        assert forall|k: usize| #[trigger] q.contains(k) implies k != t by {
            let a = choose|a: int| 0 <= a < q.len() && q[a] == k;
            assert(q[a] != t);
        }
    }
}

/// When the threads of an ended process leave a ready queue in which no thread
/// waits twice, none of them is left in it, every other thread still waits
/// there, and still no thread waits twice.
pub proof fn law_released_threads_leave_the_queue(q: Seq<usize>, tasks: Seq<Option<usize>>)
    requires
        q.no_duplicates(),
    ensures
        queue_without_all(q, tasks).no_duplicates(),
        forall|k: usize|
            #[trigger] queue_without_all(q, tasks).contains(k) <==> q.contains(k) && !listed(
                tasks,
                tasks.len() as int,
                k,
            ),
    decreases tasks.len(),
{
    if tasks.len() > 0 {
        let front = tasks.drop_last();
        law_released_threads_leave_the_queue(q, front);
        let rest = queue_without_all(q, front);
        assert forall|k: usize| listed(tasks, tasks.len() as int, k) <==> listed(front, front.len() as int, k)
            || tasks.last() == Some(k) by {
            if listed(tasks, tasks.len() as int, k) && tasks.last() != Some(k) {
                let j = choose|j: int| 0 <= j < tasks.len() && #[trigger] tasks[j] == Some(k);
                assert(front[j] == Some(k));
            }
            if listed(front, front.len() as int, k) {
                let j = choose|j: int| 0 <= j < front.len() && #[trigger] front[j] == Some(k);
                assert(tasks[j] == Some(k));
            }
            if tasks.last() == Some(k) {
                assert(tasks[tasks.len() - 1] == Some(k));
            }
        }
        match tasks.last() {
            Some(t) => {
                lemma_queue_without(rest, t);
            },
            None => {},
        }
    }
}

/// `b` holds a copy of each open file of `a`, at the same descriptor.
pub open spec fn fds_copied<F: Clone>(a: Seq<Option<F>>, b: Seq<Option<F>>) -> bool {
    &&& b.len() == a.len()
    &&& forall|i: int|
        0 <= i < a.len() ==> match (#[trigger] a[i], b[i]) {
            (Some(x), Some(y)) => cloned(x, y),
            (None, None) => true,
            _ => false,
        }
}

/// Copies the descriptor table `fds`: each open file is cloned.
pub fn copy_fd_table<F: Clone>(fds: &Vec<Option<F>>) -> (r: Vec<Option<F>>)
    ensures
        fds_copied(fds@, r@),
{
    let mut r: Vec<Option<F>> = Vec::new();
    let n = fds.len();
    let mut i: usize = 0;
    while i < n
        invariant
            0 <= i <= n,
            n == fds@.len(),
            fds_copied(fds@.take(i as int), r@),
        decreases n - i,
    {
        match &fds[i] {
            Some(f) => r.push(Some(f.clone())),
            None => r.push(None),
        }
        assert(fds@.take(i + 1)[i as int] == fds@[i as int]);
        assert forall|j: int| 0 <= j < i implies fds@.take(i + 1)[j] == fds@.take(i as int)[j] by {}
        i += 1;
    }
    assert(fds@.take(n as int) == fds@);
    r
}

/// Every process of `processes` holds its pid: `pids` has it in use.
pub open spec fn pids_in_use<F, M>(processes: Seq<ProcessRecord<F, M>>, pids: RecycleAllocator) -> bool {
    forall|q: int| 0 <= q < processes.len() ==> pids.in_use(#[trigger] processes[q].pid)
}

/// What forking process `parent` into `child` leaves: the processes `pr0`,
/// threads `th0`, pid allocator `a0`, pid table `pids0` and ready queue `q0`
/// become `pr1`, `th1`, `a1`, `pids1` and `q1`.
pub open spec fn fork_done<F: Clone, M: Clone>(
    parent: usize,
    pr0: Seq<ProcessRecord<F, M>>,
    pr1: Seq<ProcessRecord<F, M>>,
    th0: Seq<ThreadRecord>,
    th1: Seq<ThreadRecord>,
    a0: RecycleAllocator,
    a1: RecycleAllocator,
    pids0: Map<usize, usize>,
    pids1: Map<usize, usize>,
    q0: Seq<usize>,
    q1: Seq<usize>,
    child: usize,
) -> bool {
    &&& child == pr0.len()
    &&& pr1.len() == child + 1
    &&& th1 == th0.push(ThreadRecord { process: child, tid: 0, exit_code: None, has_res: true })
    &&& a1.wf()
    &&& handed_out(a0, a1, pr1[child as int].pid)
    &&& pr1[child as int].parent == Some(parent)
    &&& pr1[child as int].children@.len() == 0
    &&& !pr1[child as int].is_zombie
    &&& pr1[child as int].exit_code == 0
    &&& pr1[child as int].tasks@ == seq![Some(th0.len() as usize)]
    &&& fds_copied(pr0[parent as int].fd_table@, pr1[child as int].fd_table@)
    &&& cloned(pr0[parent as int].memory_set, pr1[child as int].memory_set)
    &&& pr1[child as int].signals == SignalFlags::empty_set()
    &&& pids_in_use(pr1, a1)
    &&& forall|q: int| 0 <= q < pr0.len() ==> #[trigger] pr0[q].pid != pr1[child as int].pid
    &&& pr1[parent as int].children@ == pr0[parent as int].children@.push(child)
    &&& same_but_family(pr0[parent as int], pr1[parent as int])
    &&& pr1[parent as int].parent == pr0[parent as int].parent
    &&& forall|q: int| 0 <= q < pr0.len() && q != parent ==> #[trigger] pr1[q] == pr0[q]
    &&& pids1 == pids0.insert(pr1[child as int].pid, child)
    &&& q1 == q0.push(th0.len() as usize)
}

/// Forks process `parent`, which must have a single thread. The child is a
/// new process at the end of the table, with a fresh pid from `pid_allocator`,
/// `parent` as its parent, no children, a copy of the parent's open files,
/// a copy of its address space, no pending signal,
/// and one thread: a new thread record with thread id 0, the first a fresh
/// process hands out, holding its resources (the copied stack and trap
/// context) and queued to run. The child becomes the last child of `parent`
/// and is entered in the pid table. Returns the child's index.
pub fn fork<F: Clone, M: Clone>(
    processes: &mut Vec<ProcessRecord<F, M>>,
    threads: &mut Vec<ThreadRecord>,
    pid_allocator: &mut RecycleAllocator,
    pid_table: &mut BTreeMap<usize, usize>,
    manager: &mut TaskManager,
    parent: usize,
) -> (child: usize)
    requires
        parent < old(processes)@.len(),
        old(processes)@[parent as int].tasks@.len() == 1,
        old(processes)@.len() < usize::MAX,
        old(threads)@.len() < usize::MAX,
        old(pid_allocator).wf(),
        old(pid_allocator).recycled().len() == 0 ==> old(pid_allocator).next() < usize::MAX,
        pids_in_use(old(processes)@, *old(pid_allocator)),
    ensures
        fork_done(
            parent,
            old(processes)@,
            final(processes)@,
            old(threads)@,
            final(threads)@,
            *old(pid_allocator),
            *final(pid_allocator),
            old(pid_table)@,
            final(pid_table)@,
            old(manager).queue(),
            final(manager).queue(),
            child,
        ),
{
    let child = processes.len();
    let task = threads.len();
    let pid = pid_alloc(pid_allocator).0;
    let fd_table = copy_fd_table(&processes[parent].fd_table);
    let memory_set = processes[parent].memory_set.clone();
    let mut tasks: Vec<Option<usize>> = Vec::new();
    tasks.push(Some(task));
    processes[parent].children.push(child);
    processes.push(
        ProcessRecord {
            pid,
            parent: Some(parent),
            children: Vec::new(),
            is_zombie: false,
            exit_code: 0,
            tasks,
            fd_table,
            memory_set,
            signals: SignalFlags { bits: 0 },
        },
    );
    threads.push(ThreadRecord { process: child, tid: 0, exit_code: None, has_res: true });
    insert_into_pid2process(pid_table, pid, child);
    add_task(manager, task);
    child
}

/// Creates a process with the address space `memory_set`: a new record at the
/// end of the table, with a fresh pid from `pid_allocator`, no parent and no
/// children, descriptors 0, 1 and 2 open on `stdin`, `stdout` and `stderr`, no
/// pending signal, and one thread: a new thread record with thread id 0
/// holding its resources, queued to run. The process is entered in the pid
/// table. Returns its index.
pub fn new_process<F, M>(
    processes: &mut Vec<ProcessRecord<F, M>>,
    threads: &mut Vec<ThreadRecord>,
    pid_allocator: &mut RecycleAllocator,
    pid_table: &mut BTreeMap<usize, usize>,
    manager: &mut TaskManager,
    memory_set: M,
    stdin: F,
    stdout: F,
    stderr: F,
) -> (p: usize)
    requires
        old(processes)@.len() < usize::MAX,
        old(threads)@.len() < usize::MAX,
        old(pid_allocator).wf(),
        old(pid_allocator).recycled().len() == 0 ==> old(pid_allocator).next() < usize::MAX,
        pids_in_use(old(processes)@, *old(pid_allocator)),
    ensures
        p == old(processes)@.len(),
        final(processes)@.len() == p + 1,
        forall|q: int| 0 <= q < p ==> #[trigger] final(processes)@[q] == old(processes)@[q],
        final(threads)@ == old(threads)@.push(ThreadRecord { process: p, tid: 0, exit_code: None, has_res: true }),
        final(pid_allocator).wf(),
        handed_out(*old(pid_allocator), *final(pid_allocator), final(processes)@[p as int].pid),
        pids_in_use(final(processes)@, *final(pid_allocator)),
        forall|q: int| 0 <= q < p ==> #[trigger] old(processes)@[q].pid != final(processes)@[p as int].pid,
        final(processes)@[p as int].parent is None,
        final(processes)@[p as int].children@.len() == 0,
        !final(processes)@[p as int].is_zombie,
        final(processes)@[p as int].exit_code == 0,
        final(processes)@[p as int].tasks@ == seq![Some(old(threads)@.len() as usize)],
        final(processes)@[p as int].fd_table@ == seq![Some(stdin), Some(stdout), Some(stderr)],
        final(processes)@[p as int].memory_set == memory_set,
        final(processes)@[p as int].signals == SignalFlags::empty_set(),
        final(pid_table)@ == old(pid_table)@.insert(final(processes)@[p as int].pid, p),
        final(manager).queue() == old(manager).queue().push(old(threads)@.len() as usize),
{
    let p = processes.len();
    let task = threads.len();
    let pid = pid_alloc(pid_allocator).0;
    let mut fd_table: Vec<Option<F>> = Vec::new();
    fd_table.push(Some(stdin));
    fd_table.push(Some(stdout));
    fd_table.push(Some(stderr));
    let mut tasks: Vec<Option<usize>> = Vec::new();
    tasks.push(Some(task));
    processes.push(
        ProcessRecord {
            pid,
            parent: None,
            children: Vec::new(),
            is_zombie: false,
            exit_code: 0,
            tasks,
            fd_table,
            memory_set,
            signals: SignalFlags { bits: 0 },
        },
    );
    threads.push(ThreadRecord { process: p, tid: 0, exit_code: None, has_res: true });
    insert_into_pid2process(pid_table, pid, p);
    add_task(manager, task);
    p
}

/// Takes `task` out of the ready queue: a thread that will not run again.
pub fn remove_inactive_task(manager: &mut TaskManager, task: usize)
    ensures
        final(manager).queue() == queue_without(old(manager).queue(), task),
{
    remove_task(manager, task);
}

/// Hands the children of process `p` to process `initproc`: each is marked
/// as its child and added, in order, behind its own children.
pub fn reparent_children<F, M>(processes: &mut Vec<ProcessRecord<F, M>>, p: usize, initproc: usize)
    requires
        p < old(processes)@.len(),
        initproc < old(processes)@.len(),
        p != initproc,
        forall|j: int|
            0 <= j < old(processes)@[p as int].children@.len() ==> #[trigger] old(processes)@[p as int].children@[j]
                < old(processes)@.len(),
    ensures
        final(processes)@.len() == old(processes)@.len(),
        forall|q: int|
            0 <= q < old(processes)@.len() ==> same_but_family(old(processes)@[q], #[trigger] final(processes)@[q]),
        forall|q: usize|
            q < old(processes)@.len() ==> (#[trigger] final(processes)@[q as int]).parent == if old(
                processes,
            )@[p as int].children@.contains(q) {
                Some(initproc)
            } else {
                old(processes)@[q as int].parent
            },
        forall|q: int|
            0 <= q < old(processes)@.len() && q != initproc ==> (#[trigger] final(processes)@[q]).children@ == old(
                processes,
            )@[q].children@,
        final(processes)@[initproc as int].children@ == old(processes)@[initproc as int].children@ + old(
            processes,
        )@[p as int].children@,
{
    let ghost before = processes@;
    let ghost moved = processes@[p as int].children@;
    let n = processes[p].children.len();
    let mut i: usize = 0;
    while i < n
        invariant
            0 <= i <= n,
            n == moved.len(),
            p < before.len(),
            initproc < before.len(),
            p != initproc,
            moved == before[p as int].children@,
            forall|j: int| 0 <= j < moved.len() ==> #[trigger] moved[j] < before.len(),
            processes@.len() == before.len(),
            forall|q: int| 0 <= q < before.len() ==> same_but_family(before[q], #[trigger] processes@[q]),
            forall|q: usize|
                q < before.len() ==> (#[trigger] processes@[q as int]).parent == if moved.take(i as int).contains(q) {
                    Some(initproc)
                } else {
                    before[q as int].parent
                },
            forall|q: int| 0 <= q < before.len() && q != initproc ==> (#[trigger] processes@[q]).children@ == before[q].children@,
            processes@[initproc as int].children@ == before[initproc as int].children@ + moved.take(i as int),
        decreases n - i,
    {
        let c = processes[p].children[i];
        assert(processes@[p as int].children@[i as int] == moved[i as int]);
        processes[c].parent = Some(initproc);
        processes[initproc].children.push(c);
        proof {
            assert(moved.take(i + 1)[i as int] == c);
            assert forall|q: usize| q < before.len() implies (#[trigger] processes@[q as int]).parent == if moved.take(
                i + 1,
            ).contains(q) {
                Some(initproc)
            } else {
                before[q as int].parent
            } by {
                if moved.take(i + 1).contains(q) && q != c {
                    let j = choose|j: int| 0 <= j < i + 1 && #[trigger] moved.take(i + 1)[j] == q;
                    assert(j != i);
                    assert(moved.take(i as int)[j] == q);
                }
                if moved.take(i as int).contains(q) {
                    let j = choose|j: int| 0 <= j < i && #[trigger] moved.take(i as int)[j] == q;
                    assert(moved.take(i + 1)[j] == q);
                }
            }
            assert(moved.take(i + 1) == moved.take(i as int).push(c));
        }
        i += 1;
    }
    proof {
        assert(moved.take(n as int) == moved);
    }
}

/// Releases the user resources of the threads listed in `tasks` and takes
/// them out of the ready queue, in the order of the list.
pub fn release_tasks(manager: &mut TaskManager, threads: &mut Vec<ThreadRecord>, tasks: &Vec<Option<usize>>)
    requires
        forall|j: int| 0 <= j < tasks@.len() && tasks@[j] is Some ==> (#[trigger] tasks@[j])->0 < old(threads)@.len(),
    ensures
        final(manager).queue() == queue_without_all(old(manager).queue(), tasks@),
        final(threads)@.len() == old(threads)@.len(),
        forall|k: usize|
            k < old(threads)@.len() ==> if listed(tasks@, tasks@.len() as int, k) {
                released(old(threads)@[k as int], #[trigger] final(threads)@[k as int])
            } else {
                final(threads)@[k as int] == old(threads)@[k as int]
            },
{
    let ghost before = threads@;
    let ghost q0 = manager.queue();
    let n = tasks.len();
    let mut i: usize = 0;
    while i < n
        invariant
            0 <= i <= n,
            n == tasks@.len(),
            forall|j: int| 0 <= j < tasks@.len() && tasks@[j] is Some ==> (#[trigger] tasks@[j])->0 < before.len(),
            threads@.len() == before.len(),
            manager.queue() == queue_without_all(q0, tasks@.take(i as int)),
            forall|k: usize|
                k < before.len() ==> if listed(tasks@, i as int, k) {
                    released(before[k as int], #[trigger] threads@[k as int])
                } else {
                    threads@[k as int] == before[k as int]
                },
        decreases n - i,
    {
        assert(tasks@.take(i + 1).drop_last() == tasks@.take(i as int));
        match tasks[i] {
            Some(task) => {
                remove_inactive_task(manager, task);
                threads[task].has_res = false;
            },
            None => {},
        }
        proof {
            assert forall|k: usize| k < before.len() implies if listed(tasks@, i + 1, k) {
                released(before[k as int], #[trigger] threads@[k as int])
            } else {
                threads@[k as int] == before[k as int]
            } by {
                if listed(tasks@, i + 1, k) && tasks@[i as int] != Some(k) {
                    let j = choose|j: int| 0 <= j < i + 1 && #[trigger] tasks@[j] == Some(k);
                    assert(listed(tasks@, i as int, k));
                }
                if listed(tasks@, i as int, k) {
                    let j = choose|j: int| 0 <= j < i && #[trigger] tasks@[j] == Some(k);
                    assert(listed(tasks@, i + 1, k));
                }
                if tasks@[i as int] == Some(k) {
                    assert(listed(tasks@, i + 1, k));
                }
            }
        }
        i += 1;
    }
    proof {
        assert(tasks@.take(n as int) == tasks@);
    }
}

/// The exit bookkeeping of the running thread, which ends with `exit_code`.
/// The thread leaves the processor, keeps its exit code and gives up its user
/// resources. When it is the main thread of a process other than the idle
/// one, the process ends too: it leaves the pid table and becomes a zombie
/// with the thread's exit code; its children go to `initproc`; all its
/// threads give up their user resources and leave the ready queue; its
/// children, open files and threads but the main one are dropped. The caller
/// then does what the returned action says.
pub fn exit_current_and_run_next<F, M>(
    processor: &mut Processor,
    manager: &mut TaskManager,
    threads: &mut Vec<ThreadRecord>,
    processes: &mut Vec<ProcessRecord<F, M>>,
    pid_table: &mut BTreeMap<usize, usize>,
    initproc: usize,
    exit_code: i32,
) -> (r: ExitAction)
    requires
        exit_ready(old(processor).running(), old(threads)@, old(processes)@, old(pid_table)@, initproc),
    ensures
        final(processor).running() is None,
        final(processor).idle() == old(processor).idle(),
        exit_done(
            old(processor).running()->0,
            old(threads)@,
            final(threads)@,
            old(processes)@,
            final(processes)@,
            old(pid_table)@,
            final(pid_table)@,
            old(manager).queue(),
            final(manager).queue(),
            initproc,
            exit_code,
            r,
        ),
{
    let t = match processor.take_current() {
        Some(t) => t,
        None => {
            proof {
                assert(false);
            }
            0
        },
    };
    let p = threads[t].process;
    let tid = threads[t].tid;
    threads[t].exit_code = Some(exit_code);
    threads[t].has_res = false;
    assert(threads@ =~= old(threads)@.update(t as int, threads@[t as int]));
    if tid != 0 {
        return ExitAction::Schedule;
    }
    let pid = processes[p].pid;
    if pid == IDLE_PID {
        return ExitAction::Shutdown { failure: exit_code != 0 };
    }
    remove_from_pid2process(pid_table, pid);
    processes[p].is_zombie = true;
    processes[p].exit_code = exit_code;
    let ghost pre = processes@;
    reparent_children(processes, p, initproc);
    let ghost mid = processes@;
    let mut tasks: Vec<Option<usize>> = Vec::new();
    std::mem::swap(&mut tasks, &mut processes[p].tasks);
    release_tasks(manager, threads, &tasks);
    std::mem::swap(&mut tasks, &mut processes[p].tasks);
    processes[p].children.clear();
    processes[p].fd_table.clear();
    assert(processes@[p as int].tasks@ == mid[p as int].tasks@.take(mid[p as int].tasks@.len() as int));
    while processes[p].tasks.len() > 1
        invariant
            p < processes@.len(),
            processes@.len() == mid.len(),
            forall|q: int| 0 <= q < mid.len() && q != p ==> processes@[q] == mid[q],
            processes@[p as int].pid == mid[p as int].pid,
            processes@[p as int].parent == mid[p as int].parent,
            processes@[p as int].is_zombie == mid[p as int].is_zombie,
            processes@[p as int].exit_code == mid[p as int].exit_code,
            processes@[p as int].children@.len() == 0,
            processes@[p as int].fd_table@.len() == 0,
            processes@[p as int].tasks@.len() <= mid[p as int].tasks@.len(),
            processes@[p as int].tasks@ == mid[p as int].tasks@.take(processes@[p as int].tasks@.len() as int),
            processes@[p as int].tasks@.len() == 0 ==> mid[p as int].tasks@.len() == 0,
            mid[p as int].tasks@.len() >= 1 ==> processes@[p as int].tasks@.len() >= 1,
        decreases processes@[p as int].tasks@.len(),
    {
        let ghost kept = processes@[p as int].tasks@;
        processes[p].tasks.pop();
        assert(processes@[p as int].tasks@ == mid[p as int].tasks@.take(kept.len() - 1));
    }
    proof {
        let ended = old(processes)@[p as int];
        assert forall|q: usize| q < old(processes)@.len() implies {
            &&& (#[trigger] processes@[q as int]).parent == if ended.children@.contains(q) {
                Some(initproc)
            } else {
                old(processes)@[q as int].parent
            }
            &&& q != p ==> same_but_family(old(processes)@[q as int], processes@[q as int])
            &&& q != p && q != initproc ==> processes@[q as int].children@ == old(processes)@[q as int].children@
        } by {
            if q != p {
                assert(processes@[q as int] == mid[q as int]);
                assert(pre[q as int] == old(processes)@[q as int]);
                assert(same_but_family(pre[q as int], mid[q as int]));
            }
        }
    }
    ExitAction::Schedule
}

} // verus!
