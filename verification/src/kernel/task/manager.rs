//! The queue of tasks ready to run, and the table from process ids to processes.
use std::collections::BTreeMap;
use std::collections::VecDeque;
use vstd::prelude::*;
use vstd::std_specs::btree::{
    axiom_contains_deref_key, axiom_deref_key_removed, axiom_maps_deref_key_to_value,
};

verus! {

broadcast use {axiom_contains_deref_key, axiom_deref_key_removed, axiom_maps_deref_key_to_value};

/// The index of the first `t` in `q`, or `q.len()` when there is none.
pub open spec fn first_index(q: Seq<usize>, t: usize) -> int
    decreases q.len(),
{
    if q.len() == 0 {
        0
    } else if q[0] == t {
        0
    } else {
        1 + first_index(q.drop_first(), t)
    }
}

/// The tasks ready to run, by task id, first in first out.
pub struct TaskManager {
    ready_queue: VecDeque<usize>,
}

impl TaskManager {
    /// The ids of the ready tasks, the next to run first.
    pub closed spec fn queue(&self) -> Seq<usize> {
        self.ready_queue@
    }

    /// A manager with no ready task.
    pub fn new() -> (r: Self)
        ensures
            r.queue() == Seq::<usize>::empty(),
    {
        Self { ready_queue: VecDeque::new() }
    }

    /// Queues `task` behind the others.
    pub fn add(&mut self, task: usize)
        ensures
            final(self).queue() == old(self).queue().push(task),
    {
        self.ready_queue.push_back(task);
    }

    /// Takes the task that waited longest, if any.
    pub fn fetch(&mut self) -> (r: Option<usize>)
        ensures
            old(self).queue().len() == 0 ==> r is None && final(self).queue() == old(self).queue(),
            old(self).queue().len() > 0 ==> r == Some(old(self).queue()[0]) && final(self).queue()
                == old(self).queue().drop_first(),
    {
        let r = self.ready_queue.pop_front();
        proof {
            if r is Some {
                assert(self.ready_queue@ =~= old(self).queue().drop_first());
            }
        }
        r
    }

    /// Takes `task` out of the queue, at its first place, if it is queued.
    pub fn remove(&mut self, task: usize)
        ensures
            final(self).queue() == if first_index(old(self).queue(), task) < old(self).queue().len() {
                old(self).queue().remove(first_index(old(self).queue(), task))
            } else {
                old(self).queue()
            },
    {
        let mut i: usize = 0;
        let n = self.ready_queue.len();
        while i < n
            invariant
                n == self.ready_queue@.len(),
                self.ready_queue@ == old(self).queue(),
                i <= n,
                forall|j: int| 0 <= j < i ==> self.ready_queue@[j] != task,
            decreases n - i,
        {
            if self.ready_queue[i] == task {
                proof {
                    lemma_first_index(self.ready_queue@, task, i as int);
                }
                self.ready_queue.remove(i);
                return;
            }
            i += 1;
        }
        proof {
            lemma_first_index(self.ready_queue@, task, n as int);
        }
    }
}

/// The first index of `t` is `k` when `t` is at `k` and nowhere before, and
/// the length when it is nowhere.
proof fn lemma_first_index(q: Seq<usize>, t: usize, k: int)
    requires
        0 <= k <= q.len(),
        forall|j: int| 0 <= j < k ==> q[j] != t,
        k < q.len() ==> q[k] == t,
    ensures
        first_index(q, t) == k,
    decreases q.len(),
{
    if q.len() > 0 && k > 0 {
        lemma_first_index(q.drop_first(), t, k - 1);
    }
}

/// Queues `task` on `manager`.
pub fn add_task(manager: &mut TaskManager, task: usize)
    ensures
        final(manager).queue() == old(manager).queue().push(task),
{
    manager.add(task);
}

/// Takes the next task of `manager`, if any.
pub fn fetch_task(manager: &mut TaskManager) -> (r: Option<usize>)
    ensures
        old(manager).queue().len() == 0 ==> r is None && final(manager).queue() == old(manager).queue(),
        old(manager).queue().len() > 0 ==> r == Some(old(manager).queue()[0]) && final(manager).queue()
            == old(manager).queue().drop_first(),
{
    manager.fetch()
}

/// Takes `task` out of `manager`'s queue, if it is queued.
pub fn remove_task(manager: &mut TaskManager, task: usize)
    ensures
        final(manager).queue() == if first_index(old(manager).queue(), task) < old(manager).queue().len() {
            old(manager).queue().remove(first_index(old(manager).queue(), task))
        } else {
            old(manager).queue()
        },
{
    manager.remove(task);
}

/// Records `process` as the process of `pid`.
pub fn insert_into_pid2process<T>(map: &mut BTreeMap<usize, T>, pid: usize, process: T)
    ensures
        final(map)@ == old(map)@.insert(pid, process),
{
    map.insert(pid, process);
}

/// The process of `pid`, if there is one.
pub fn pid2process<T>(map: &BTreeMap<usize, T>, pid: usize) -> (r: Option<&T>)
    ensures
        match r {
            Some(p) => map@.contains_key(pid) && *p == map@[pid],
            None => !map@.contains_key(pid),
        },
{
    map.get(&pid)
}

/// Forgets the process of `pid`, which must be recorded.
pub fn remove_from_pid2process<T>(map: &mut BTreeMap<usize, T>, pid: usize)
    requires
        old(map)@.contains_key(pid),
    ensures
        final(map)@ == old(map)@.remove(pid),
{
    let removed = map.remove(&pid);
    assert(removed is Some);
}

} // verus!
