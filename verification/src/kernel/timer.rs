//! Time: the clock in milliseconds, the next timer interrupt, and the tasks
//! sleeping until a deadline.
use super::config::CLOCK_FREQ;
use super::task::manager::TaskManager;
use super::task::processor::wakeup_task;
use super::task::task::TaskStatus;
use vstd::prelude::*;

verus! {

/// Milliseconds per second.
pub const MSEC_PER_SEC: usize = 1000;

/// Timer interrupts per second.
pub const TICKS_PER_SEC: usize = 100;

/// The time in milliseconds when the clock counter reads `time`.
pub fn get_time_ms(time: usize) -> (r: usize)
    ensures
        r == time / (CLOCK_FREQ / MSEC_PER_SEC),
{
    time / (CLOCK_FREQ / MSEC_PER_SEC)
}

/// The counter value at which to raise the next timer interrupt, when the
/// counter reads `time`: one tick later.
pub fn set_next_trigger(time: usize) -> (r: usize)
    requires
        time + CLOCK_FREQ / TICKS_PER_SEC <= usize::MAX,
    ensures
        r == time + CLOCK_FREQ / TICKS_PER_SEC,
{
    time + CLOCK_FREQ / TICKS_PER_SEC
}

/// A task sleeping until `expire_ms`.
pub struct TimerCondVar<T> {
    pub expire_ms: usize,
    pub task: T,
}

/// The sleeping tasks, earliest deadline first (tasks with the same deadline
/// in the order they were added).
pub struct TimerQueue<T> {
    timers: Vec<TimerCondVar<T>>,
}

/// The deadlines of `s`, in order.
pub open spec fn deadlines<T>(s: Seq<TimerCondVar<T>>) -> Seq<usize> {
    Seq::new(s.len(), |i: int| s[i].expire_ms)
}

/// `s` is in order of deadline.
pub open spec fn sorted_by_deadline<T>(s: Seq<TimerCondVar<T>>) -> bool {
    forall|i: int, j: int| 0 <= i <= j < s.len() ==> #[trigger] s[i].expire_ms <= #[trigger] s[j].expire_ms
}

impl<T> TimerQueue<T> {
    /// The sleeping tasks, in the order they will wake.
    pub closed spec fn entries(&self) -> Seq<TimerCondVar<T>> {
        self.timers@
    }

    /// The entries are in order of deadline.
    pub open spec fn wf(&self) -> bool {
        sorted_by_deadline(self.entries())
    }

    /// An empty queue.
    pub fn new() -> (r: Self)
        ensures
            r.wf(),
            r.entries() == Seq::<TimerCondVar<T>>::empty(),
    {
        TimerQueue { timers: Vec::new() }
    }

    /// Number of sleeping tasks.
    pub fn len(&self) -> (r: usize)
        ensures
            r == self.entries().len(),
    {
        self.timers.len()
    }
}

/// Adds `task`, sleeping until `expire_ms`, after every task whose deadline is
/// not later.
pub fn add_timer<T>(queue: &mut TimerQueue<T>, expire_ms: usize, task: T)
    requires
        old(queue).wf(),
    ensures
        final(queue).wf(),
        exists|k: int|
            0 <= k <= old(queue).entries().len() && final(queue).entries() == old(queue).entries().insert(
                k,
                TimerCondVar { expire_ms, task },
            ) && (forall|i: int| 0 <= i < k ==> #[trigger] old(queue).entries()[i].expire_ms <= expire_ms) && (
            forall|i: int| k <= i < old(queue).entries().len() ==> expire_ms < #[trigger] old(queue).entries()[i].expire_ms),
{
    let mut k: usize = 0;
    while k < queue.timers.len() && queue.timers[k].expire_ms <= expire_ms
        invariant
            queue.timers@ == old(queue).entries(),
            k <= queue.timers@.len(),
            forall|i: int| 0 <= i < k ==> #[trigger] queue.timers@[i].expire_ms <= expire_ms,
        decreases queue.timers@.len() - k,
    {
        k += 1;
    }
    let ghost before = queue.timers@;
    queue.timers.insert(k, TimerCondVar { expire_ms, task });
    proof {
        assert forall|i: int| k <= i < before.len() implies expire_ms < #[trigger] before[i].expire_ms by {
            assert(before[k as int].expire_ms <= before[i].expire_ms);
        }
        let after = queue.timers@;
        assert forall|i: int, j: int| 0 <= i <= j < after.len() implies #[trigger] after[i].expire_ms
            <= #[trigger] after[j].expire_ms by {
            if i < k && j > k {
                assert(after[j] == before[j - 1]);
            }
            if i > k {
                assert(after[i] == before[i - 1]);
                assert(after[j] == before[j - 1]);
            }
            if j < k {
            }
        }
    }
}

/// Takes out every task whose deadline is at or before `current_ms`, and
/// returns them, in the order they were queued, to be woken.
pub fn take_expired<T>(queue: &mut TimerQueue<T>, current_ms: usize) -> (r: Vec<T>)
    requires
        old(queue).wf(),
    ensures
        final(queue).wf(),
        ({
            let n = r@.len() as int;
            &&& n <= old(queue).entries().len()
            &&& final(queue).entries() == old(queue).entries().subrange(n, old(queue).entries().len() as int)
            &&& forall|i: int| 0 <= i < n ==> #[trigger] r@[i] == old(queue).entries()[i].task
            &&& forall|i: int| 0 <= i < n ==> #[trigger] old(queue).entries()[i].expire_ms <= current_ms
            &&& forall|i: int| 0 <= i < final(queue).entries().len() ==> current_ms < #[trigger] final(queue).entries()[i].expire_ms
        }),
{
    let mut n: usize = 0;
    while n < queue.timers.len() && queue.timers[n].expire_ms <= current_ms
        invariant
            queue.timers@ == old(queue).entries(),
            n <= queue.timers@.len(),
            forall|i: int| 0 <= i < n ==> #[trigger] queue.timers@[i].expire_ms <= current_ms,
        decreases queue.timers@.len() - n,
    {
        n += 1;
    }
    let ghost all = queue.timers@;
    let mut rest = queue.timers.split_off(n);
    std::mem::swap(&mut rest, &mut queue.timers);
    let mut head = rest;
    let mut woken: Vec<T> = Vec::new();
    while head.len() > 0
        invariant
            woken@.len() + head@.len() == n,
            n <= all.len(),
            forall|i: int| 0 <= i < woken@.len() ==> #[trigger] woken@[i] == all[i].task,
            forall|i: int| 0 <= i < head@.len() ==> #[trigger] head@[i] == all[woken@.len() + i],
        decreases head@.len(),
    {
        let c = head.remove(0);
        woken.push(c.task);
    }
    proof {
        let after = queue.timers@;
        assert(after == all.subrange(n as int, all.len() as int));
        assert forall|i: int| 0 <= i < after.len() implies current_ms < #[trigger] after[i].expire_ms by {
            assert(after[i] == all[n + i]);
            if n < all.len() {
                assert(all[n as int].expire_ms > current_ms);
                assert(all[n as int].expire_ms <= all[n + i].expire_ms);
            }
        }
        assert forall|i: int, j: int| 0 <= i <= j < after.len() implies #[trigger] after[i].expire_ms
            <= #[trigger] after[j].expire_ms by {
            assert(after[i] == all[n + i]);
            assert(after[j] == all[n + j]);
        }
    }
    woken
}

/// The entry of `task` matters to `remove_timer`: it is kept when it is another task's.
pub open spec fn other_task(task: usize) -> spec_fn(TimerCondVar<usize>) -> bool {
    |c: TimerCondVar<usize>| c.task != task
}

/// Takes every timer of `task` out of the queue; the others keep their order.
pub fn remove_timer(queue: &mut TimerQueue<usize>, task: usize)
    requires
        old(queue).wf(),
    ensures
        final(queue).wf(),
        final(queue).entries() == old(queue).entries().filter(other_task(task)),
{
    let ghost all = queue.timers@;
    let mut kept: Vec<TimerCondVar<usize>> = Vec::new();
    let mut i: usize = 0;
    while i < queue.timers.len()
        invariant
            queue.timers@ == all,
            sorted_by_deadline(all),
            i <= all.len(),
            kept@ == all.subrange(0, i as int).filter(other_task(task)),
            sorted_by_deadline(kept@),
            forall|k: int, j: int|
                0 <= k < kept@.len() && i <= j < all.len() ==> #[trigger] kept@[k].expire_ms
                    <= #[trigger] all[j].expire_ms,
        decreases all.len() - i,
    {
        let c = &queue.timers[i];
        proof {
            reveal(Seq::filter);
            assert(all.subrange(0, i + 1).drop_last() =~= all.subrange(0, i as int));
            assert(all.subrange(0, i + 1).last() == all[i as int]);
        }
        if c.task != task {
            let ghost before = kept@;
            kept.push(TimerCondVar { expire_ms: c.expire_ms, task: c.task });
            proof {
                assert forall|k: int, j: int| 0 <= k <= j < kept@.len() implies #[trigger] kept@[k].expire_ms
                    <= #[trigger] kept@[j].expire_ms by {
                    if j == before.len() && k < j {
                        assert(before[k].expire_ms <= all[i as int].expire_ms);
                    }
                }
                assert forall|k: int, j: int| 0 <= k < kept@.len() && i + 1 <= j < all.len() implies #[trigger] kept@[k].expire_ms
                    <= #[trigger] all[j].expire_ms by {
                    if k < before.len() {
                        assert(before[k].expire_ms <= all[j].expire_ms);
                    } else {
                        assert(all[i as int].expire_ms <= all[j].expire_ms);
                    }
                }
            }
        }
        i += 1;
    }
    proof {
        assert(all.subrange(0, i as int) =~= all);
    }
    queue.timers = kept;
}

/// Wakes every task whose deadline is at or before `current_ms`: each leaves
/// the timer queue, is marked ready and queued to run, in deadline order.
/// Every task in the timer queue must have a status.
pub fn check_timer(queue: &mut TimerQueue<usize>, current_ms: usize, manager: &mut TaskManager, status: &mut Vec<TaskStatus>)
    requires
        old(queue).wf(),
        forall|i: int| 0 <= i < old(queue).entries().len() ==> (#[trigger] old(queue).entries()[i]).task < old(status)@.len(),
    ensures
        final(queue).wf(),
        ({
            let n = old(queue).entries().len() - final(queue).entries().len();
            let woken = Seq::new(n as nat, |i: int| old(queue).entries()[i].task);
            &&& 0 <= n
            &&& final(queue).entries() == old(queue).entries().subrange(n, old(queue).entries().len() as int)
            &&& forall|i: int| 0 <= i < n ==> #[trigger] old(queue).entries()[i].expire_ms <= current_ms
            &&& forall|i: int| 0 <= i < final(queue).entries().len() ==> current_ms < #[trigger] final(queue).entries()[i].expire_ms
            &&& final(manager).queue() == old(manager).queue() + woken
            &&& final(status)@.len() == old(status)@.len()
            &&& forall|k: usize| k < old(status)@.len() ==> #[trigger] final(status)@[k as int] == if woken.contains(k) {
                TaskStatus::Ready
            } else {
                old(status)@[k as int]
            }
        }),
{
    let ghost e0 = queue.entries();
    let woken = take_expired(queue, current_ms);
    let ghost q0 = manager.queue();
    let ghost s0 = status@;
    let n = woken.len();
    let mut i: usize = 0;
    while i < n
        invariant
            0 <= i <= n,
            n == woken@.len(),
            n <= e0.len(),
            forall|j: int| 0 <= j < n ==> #[trigger] woken@[j] == e0[j].task,
            forall|j: int| 0 <= j < e0.len() ==> (#[trigger] e0[j]).task < s0.len(),
            manager.queue() == q0 + woken@.take(i as int),
            status@.len() == s0.len(),
            forall|k: usize| k < s0.len() ==> #[trigger] status@[k as int] == if woken@.take(i as int).contains(k) {
                TaskStatus::Ready
            } else {
                s0[k as int]
            },
        decreases n - i,
    {
        let t = woken[i];
        assert(e0[i as int].task == t);
        wakeup_task(manager, status, t);
        proof {
            assert(woken@.take(i + 1) == woken@.take(i as int).push(t));
            assert forall|k: usize| k < s0.len() implies #[trigger] status@[k as int] == if woken@.take(i + 1).contains(k) {
                TaskStatus::Ready
            } else {
                s0[k as int]
            } by {
                if woken@.take(i as int).contains(k) {
                    let j = choose|j: int| 0 <= j < i && #[trigger] woken@.take(i as int)[j] == k;
                    assert(woken@.take(i + 1)[j] == k);
                }
                if woken@.take(i + 1).contains(k) && k != t {
                    let j = choose|j: int| 0 <= j < i + 1 && #[trigger] woken@.take(i + 1)[j] == k;
                    assert(j != i);
                    assert(woken@.take(i as int)[j] == k);
                }
                if k == t {
                    assert(woken@.take(i + 1)[i as int] == t);
                }
            }
        }
        i += 1;
    }
    proof {
        let woken_spec = Seq::new(n as nat, |j: int| e0[j].task);
        assert(woken@.take(n as int) =~= woken_spec);
        assert(woken@ =~= woken_spec);
    }
}

} // verus!
