//! The processor: which task runs, and the scheduler's bookkeeping around a
//! switch. Tasks are named by id; `status[id]` is the status of task `id`.
use super::context::TaskContext;
use super::manager::{fetch_task, TaskManager};
use super::task::TaskStatus;
use vstd::prelude::*;

verus! {

/// The task running on the processor, if any, and the context of the idle
/// control flow that picks the next task.
pub struct Processor {
    current: Option<usize>,
    idle_task_cx: TaskContext,
}

impl Processor {
    /// The task running, if any.
    pub closed spec fn running(&self) -> Option<usize> {
        self.current
    }

    /// The saved context of the idle control flow.
    pub closed spec fn idle(&self) -> TaskContext {
        self.idle_task_cx
    }

    /// A processor running no task, with a zeroed idle context.
    pub fn new() -> (r: Self)
        ensures
            r.running() is None,
            r.idle().ra == 0,
            r.idle().sp == 0,
    {
        Self { current: None, idle_task_cx: TaskContext::zero_init() }
    }

    /// Takes the running task off the processor.
    pub fn take_current(&mut self) -> (r: Option<usize>)
        ensures
            r == old(self).running(),
            final(self).running() is None,
            final(self).idle() == old(self).idle(),
    {
        self.current.take()
    }

    /// The running task, if any.
    pub fn current(&self) -> (r: Option<usize>)
        ensures
            r == self.running(),
    {
        self.current
    }
}

/// Every queued task has a status.
pub open spec fn queue_known(q: Seq<usize>, status_len: int) -> bool {
    forall|i: int| 0 <= i < q.len() ==> #[trigger] q[i] < status_len
}

/// One round of the scheduler loop: takes the next ready task from
/// `manager`, marks it running and puts it on the processor; the caller then
/// switches from the idle context to it. `None`, with nothing changed, when no
/// task is ready.
pub fn run_tasks_step(processor: &mut Processor, manager: &mut TaskManager, status: &mut Vec<TaskStatus>) -> (r: Option<usize>)
    requires
        queue_known(old(manager).queue(), old(status)@.len() as int),
    ensures
        old(manager).queue().len() == 0 ==> {
            &&& r is None
            &&& final(manager).queue() == old(manager).queue()
            &&& *final(processor) == *old(processor)
            &&& final(status)@ == old(status)@
        },
        old(manager).queue().len() > 0 ==> {
            let t = old(manager).queue()[0];
            &&& r == Some(t)
            &&& final(manager).queue() == old(manager).queue().drop_first()
            &&& final(processor).running() == Some(t)
            &&& final(processor).idle() == old(processor).idle()
            &&& final(status)@ == old(status)@.update(t as int, TaskStatus::Running)
        },
        queue_known(final(manager).queue(), final(status)@.len() as int),
{
    match fetch_task(manager) {
        Some(task) => {
            status.set(task, TaskStatus::Running);
            processor.current = Some(task);
            Some(task)
        },
        None => None,
    }
}

/// The bookkeeping of suspending the running task: it goes back to the end of
/// the ready queue, marked ready; the caller then switches to the idle context.
pub fn suspend_current_and_run_next(processor: &mut Processor, manager: &mut TaskManager, status: &mut Vec<TaskStatus>) -> (r: usize)
    requires
        old(processor).running() matches Some(t) && t < old(status)@.len(),
        queue_known(old(manager).queue(), old(status)@.len() as int),
    ensures
        Some(r) == old(processor).running(),
        final(processor).running() is None,
        final(manager).queue() == old(manager).queue().push(r),
        final(status)@ == old(status)@.update(r as int, TaskStatus::Ready),
        queue_known(final(manager).queue(), final(status)@.len() as int),
{
    let task = match processor.take_current() {
        Some(t) => t,
        None => {
            proof {
                assert(false);
            }
            0
        },
    };
    status.set(task, TaskStatus::Ready);
    manager.add(task);
    task
}

/// Wakes `task`: marks it ready and queues it.
pub fn wakeup_task(manager: &mut TaskManager, status: &mut Vec<TaskStatus>, task: usize)
    requires
        task < old(status)@.len(),
    ensures
        final(manager).queue() == old(manager).queue().push(task),
        final(status)@ == old(status)@.update(task as int, TaskStatus::Ready),
{
    status.set(task, TaskStatus::Ready);
    manager.add(task);
}

} // verus!
