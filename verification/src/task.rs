//! A first-in, first-out ready queue of tasks: the scheduler's only
//! bookkeeping. Tasks join at the back, run from the front, and can be
//! pulled out of line when they stop being runnable.

use vstd::prelude::*;
use std::collections::VecDeque;

verus! {

/// A handle to a schedulable task.
#[derive(Clone, Copy, PartialEq, Eq, Structural, Debug)]
pub struct TaskControlBlock {
    pub pid: usize,
}

/// A simple FIFO scheduler.
pub struct TaskManager {
    pub ready_queue: VecDeque<TaskControlBlock>,
}

impl TaskManager {
    /// The queued tasks, front first.
    pub open spec fn queue(&self) -> Seq<TaskControlBlock> {
        self.ready_queue@
    }

    pub fn new() -> (tm: Self)
        ensures
            tm.queue().len() == 0,
    {
        TaskManager { ready_queue: VecDeque::new() }
    }

    /// Queue `task` at the back.
    pub fn add(&mut self, task: TaskControlBlock)
        ensures
            final(self).queue() == old(self).queue().push(task),
    {
        self.ready_queue.push_back(task);
    }

    /// Take `task` out of line: the first queued task equal to it leaves,
    /// the rest keep their order; without one, nothing changes.
    pub fn remove(&mut self, task: &TaskControlBlock)
        ensures
            (forall|j: int| 0 <= j < old(self).queue().len()
                ==> old(self).queue()[j] != *task)
                ==> final(self).queue() == old(self).queue(),
            forall|i: int| 0 <= i < old(self).queue().len()
                && old(self).queue()[i] == *task
                && (forall|j: int| 0 <= j < i ==> old(self).queue()[j] != *task)
                ==> final(self).queue() == old(self).queue().remove(i),
    {
        let mut idx: usize = 0;
        while idx < self.ready_queue.len()
            invariant
                *self == *old(self),
                idx <= self.ready_queue@.len(),
                forall|j: int| 0 <= j < idx ==> old(self).queue()[j] != *task,
            decreases self.ready_queue@.len() - idx,
        {
            if self.ready_queue[idx] == *task {
                self.ready_queue.remove(idx);
                return;
            }
            idx += 1;
        }
    }

    /// The task at the front of the line, if any.
    pub fn fetch(&mut self) -> (r: Option<TaskControlBlock>)
        ensures
            old(self).queue().len() == 0 ==>
                r is None && final(self).queue() == old(self).queue(),
            old(self).queue().len() > 0 ==>
                r == Some(old(self).queue()[0])
                && final(self).queue() == old(self).queue().drop_first(),
    {
        self.ready_queue.pop_front()
    }
}

} // verus!
