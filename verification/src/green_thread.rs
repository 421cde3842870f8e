//! The task table of a cooperative user-level thread runtime.
use vstd::prelude::*;

verus! {

/// Size of the stack of each task.
pub const DEFAULT_STACK_SIZE: usize = 0x1000;

/// Number of tasks of a runtime, the main one included.
pub const MAX_TASKS: usize = 6;

/// The registers a task switch saves: the return address, the stack pointer,
/// the callee-saved registers, and where a new task starts.
#[derive(Clone, Copy)]
pub struct TaskContext {
    pub x1: u64,
    pub x2: u64,
    pub x8: u64,
    pub x9: u64,
    pub x18: u64,
    pub x19: u64,
    pub x20: u64,
    pub x21: u64,
    pub x22: u64,
    pub x23: u64,
    pub x24: u64,
    pub x25: u64,
    pub x26: u64,
    pub x27: u64,
    pub nx1: u64,
}

/// Every saved register of `c` is zero.
pub open spec fn zero_context(c: TaskContext) -> bool {
    c.x1 == 0 && c.x2 == 0 && c.x8 == 0 && c.x9 == 0 && c.x18 == 0 && c.x19 == 0 && c.x20 == 0 && c.x21
        == 0 && c.x22 == 0 && c.x23 == 0 && c.x24 == 0 && c.x25 == 0 && c.x26 == 0 && c.x27 == 0 && c.nx1
        == 0
}

impl Default for TaskContext {
    /// Every register zero.
    fn default() -> (r: Self)
        ensures
            zero_context(r),
    {
        Self {
            x1: 0,
            x2: 0,
            x8: 0,
            x9: 0,
            x18: 0,
            x19: 0,
            x20: 0,
            x21: 0,
            x22: 0,
            x23: 0,
            x24: 0,
            x25: 0,
            x26: 0,
            x27: 0,
            nx1: 0,
        }
    }
}

/// What a task is doing.
#[derive(PartialEq, Eq, Structural, Clone, Copy)]
pub enum State {
    /// Free: it can be given work.
    Available,
    /// It is the one running.
    Running,
    /// It has work and can go on.
    Ready,
}

/// A task: its id, its stack, its saved registers and its state.
pub struct Task {
    pub id: usize,
    pub stack: Vec<u8>,
    pub ctx: TaskContext,
    pub state: State,
}

impl Task {
    /// A free task with id `id`, a zeroed stack and zeroed registers.
    pub fn new(id: usize) -> (r: Self)
        ensures
            r.id == id,
            r.stack@ == Seq::new(DEFAULT_STACK_SIZE as nat, |i: int| 0u8),
            zero_context(r.ctx),
            r.state == State::Available,
    {
        let stack = vec![0u8; DEFAULT_STACK_SIZE];
        assert(stack@ =~= Seq::new(DEFAULT_STACK_SIZE as nat, |i: int| 0u8));
        Task { id, stack, ctx: TaskContext::default(), state: State::Available }
    }
}

/// The tasks of the runtime and which one runs.
pub struct Runtime {
    tasks: Vec<Task>,
    current: usize,
}

impl Runtime {
    /// The tasks, by id.
    pub closed spec fn tasks(&self) -> Seq<Task> {
        self.tasks@
    }

    /// The id of the task running.
    pub closed spec fn current(&self) -> usize {
        self.current
    }

    /// A runtime of `MAX_TASKS` tasks, task `i` having id `i`: the main one,
    /// task 0, running, the others free; all stacks and registers zeroed.
    pub fn new() -> (r: Self)
        ensures
            r.tasks().len() == MAX_TASKS,
            r.current() == 0,
            forall|i: int|
                0 <= i < MAX_TASKS ==> {
                    let t = #[trigger] r.tasks()[i];
                    &&& t.id == i
                    &&& t.stack@ == Seq::new(DEFAULT_STACK_SIZE as nat, |k: int| 0u8)
                    &&& zero_context(t.ctx)
                    &&& t.state == if i == 0 {
                        State::Running
                    } else {
                        State::Available
                    }
                },
    {
        let stack = vec![0u8; DEFAULT_STACK_SIZE];
        assert(stack@ =~= Seq::new(DEFAULT_STACK_SIZE as nat, |i: int| 0u8));
        let base_task = Task { id: 0, stack, ctx: TaskContext::default(), state: State::Running };
        let mut tasks = vec![base_task];
        let mut available_tasks: Vec<Task> = Vec::new();
        let mut i: usize = 1;
        while i < MAX_TASKS
            invariant
                1 <= i <= MAX_TASKS,
                available_tasks@.len() == i - 1,
                forall|k: int|
                    0 <= k < available_tasks@.len() ==> {
                        let t = #[trigger] available_tasks@[k];
                        &&& t.id == k + 1
                        &&& t.stack@ == Seq::new(DEFAULT_STACK_SIZE as nat, |j: int| 0u8)
                        &&& zero_context(t.ctx)
                        &&& t.state == State::Available
                    },
            decreases MAX_TASKS - i,
        {
            available_tasks.push(Task::new(i));
            i += 1;
        }
        let ghost first = tasks@;
        let ghost avail = available_tasks@;
        tasks.append(&mut available_tasks);
        assert forall|k: int| 1 <= k < MAX_TASKS implies #[trigger] tasks@[k] == avail[k - 1] by {
            assert(tasks@ == first + avail);
        }
        Runtime { tasks, current: 0 }
    }

    /// Task `i`.
    pub fn task(&self, i: usize) -> (r: &Task)
        requires
            i < self.tasks().len(),
        ensures
            *r == self.tasks()[i as int],
    {
        &self.tasks[i]
    }

    /// Gives work to the first free task: it will start at `f` and return to
    /// `guard` when `f` returns; it becomes ready. There must be a free task.
    /// Returns its id. Its stack pointer is set by `set_stack_top`, from the
    /// address of its stack.
    pub fn spawn(&mut self, f: u64, guard: u64) -> (r: usize)
        requires
            exists|i: int| 0 <= i < old(self).tasks().len() && (#[trigger] old(self).tasks()[i]).state == State::Available,
        ensures
            r < old(self).tasks().len(),
            old(self).tasks()[r as int].state == State::Available,
            forall|i: int| 0 <= i < r ==> (#[trigger] old(self).tasks()[i]).state != State::Available,
            final(self).tasks().len() == old(self).tasks().len(),
            final(self).current() == old(self).current(),
            final(self).tasks()[r as int].state == State::Ready,
            final(self).tasks()[r as int].ctx.x1 == guard,
            final(self).tasks()[r as int].ctx.nx1 == f,
            final(self).tasks()[r as int].ctx.x2 == old(self).tasks()[r as int].ctx.x2,
            final(self).tasks()[r as int].id == old(self).tasks()[r as int].id,
            final(self).tasks()[r as int].stack@ == old(self).tasks()[r as int].stack@,
            forall|i: int| 0 <= i < old(self).tasks().len() && i != r ==> #[trigger] final(self).tasks()[i] == old(self).tasks()[i],
    {
        let n = self.tasks.len();
        let mut i: usize = 0;
        while i < n
            invariant
                n == self.tasks@.len(),
                i <= n,
                self.tasks@ == old(self).tasks@,
                self.current == old(self).current,
                forall|j: int| 0 <= j < i ==> (#[trigger] self.tasks@[j]).state != State::Available,
                exists|j: int| 0 <= j < n && (#[trigger] self.tasks@[j]).state == State::Available,
            decreases n - i,
        {
            if self.tasks[i].state == State::Available {
                self.tasks[i].ctx.x1 = guard;
                self.tasks[i].ctx.nx1 = f;
                self.tasks[i].state = State::Ready;
                return i;
            }
            i += 1;
        }
        proof {
            let j = choose|j: int| 0 <= j < n && (#[trigger] self.tasks@[j]).state == State::Available;
            assert(self.tasks@[j].state != State::Available);
        }
        0
    }

    /// Sets the stack pointer of task `i` to start 32 bytes below the top of
    /// its stack, `stack_end` rounded down to a multiple of 8.
    pub fn set_stack_top(&mut self, i: usize, stack_end: u64)
        requires
            i < old(self).tasks().len(),
            stack_end >= 40,
        ensures
            final(self).tasks().len() == old(self).tasks().len(),
            final(self).current() == old(self).current(),
            final(self).tasks()[i as int].ctx.x2 == (stack_end & !7u64) - 32,
            final(self).tasks()[i as int].ctx.x1 == old(self).tasks()[i as int].ctx.x1,
            final(self).tasks()[i as int].ctx.nx1 == old(self).tasks()[i as int].ctx.nx1,
            final(self).tasks()[i as int].state == old(self).tasks()[i as int].state,
            final(self).tasks()[i as int].id == old(self).tasks()[i as int].id,
            final(self).tasks()[i as int].stack@ == old(self).tasks()[i as int].stack@,
            forall|j: int| 0 <= j < old(self).tasks().len() && j != i ==> #[trigger] final(self).tasks()[j] == old(self).tasks()[j],
    {
        let top = stack_end & !7u64;
        assert(top >= 32) by (bit_vector)
            requires
                stack_end >= 40,
                top == stack_end & !7u64,
        ;
        self.tasks[i].ctx.x2 = top - 32;
    }
}

} // verus!
