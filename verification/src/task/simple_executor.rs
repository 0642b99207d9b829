//! The round-robin scheduling discipline of the kernel's simple executor:
//! a first-in-first-out queue of tasks, where a task that reports itself
//! pending goes to the back of the line and a finished task is dropped.
//! Polling the actual futures is the runtime's job; it asks this queue
//! which task runs next and reports the outcome back.
use std::collections::VecDeque;

use vstd::prelude::*;

use crate::task::{Task, TaskPoll};

verus! {

/// FIFO work queue of spawned tasks.
pub struct SimpleExecutor {
    task_queue: VecDeque<Task>,
}

impl SimpleExecutor {
    /// The queued tasks, front of the queue first.
    pub closed spec fn tasks(&self) -> Seq<Task> {
        self.task_queue@
    }

    pub fn new() -> (executor: SimpleExecutor)
        ensures
            executor.tasks() == Seq::<Task>::empty(),
    {
        SimpleExecutor { task_queue: VecDeque::new() }
    }

    /// Enqueues a task at the back of the line.
    pub fn spawn(&mut self, task: Task)
        ensures
            final(self).tasks() == old(self).tasks().push(task),
    {
        self.task_queue.push_back(task)
    }

    /// Hands the runtime the next task to poll, taking it off the queue;
    /// `None` once no task is left.
    pub fn next_task(&mut self) -> (next: Option<Task>)
        ensures
            match next {
                Some(task) => old(self).tasks().len() > 0 && task == old(self).tasks()[0]
                    && final(self).tasks() == old(self).tasks().drop_first(),
                None => old(self).tasks().len() == 0 && final(self).tasks() == old(self).tasks(),
            },
    {
        let next = self.task_queue.pop_front();
        proof {
            if old(self).tasks().len() > 0 {
                assert(self.tasks() =~= old(self).tasks().drop_first());
            }
        }
        next
    }

    /// Applies the runtime's poll outcome: a pending task is requeued at
    /// the back, a finished task is forgotten.
    pub fn on_poll_outcome(&mut self, task: Task, outcome: TaskPoll)
        ensures
            final(self).tasks() == (if outcome is Pending {
                old(self).tasks().push(task)
            } else {
                old(self).tasks()
            }),
    {
        match outcome {
            TaskPoll::Ready => (),
            TaskPoll::Pending => self.task_queue.push_back(task),
        }
    }
}

/// Round-robin law: a task taken from the front of the queue and found
/// pending reappears exactly once, at the back, with every other queued
/// task kept in order.
pub proof fn lemma_pending_task_requeued(tasks: Seq<Task>)
    requires
        tasks.len() > 0,
    ensures
        tasks.drop_first().push(tasks[0]).len() == tasks.len(),
        tasks.drop_first().push(tasks[0]).last() == tasks[0],
        forall|i: int|
            0 <= i < tasks.len() - 1 ==> #[trigger] tasks.drop_first().push(tasks[0])[i] == tasks[i
                + 1],
{
}

} // verus!
