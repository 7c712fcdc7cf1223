use vstd::prelude::*;

use std::collections::VecDeque;

use super::{Poll, Task};

verus! {

/// A cooperative scheduler with a FIFO run queue. Each round takes the task
/// at the head of the queue, polls it once, and puts it back at the tail if
/// it is still pending.
pub struct SimpleExecutor<F> {
    task_queue: VecDeque<Task<F>>,
}

impl<F> View for SimpleExecutor<F> {
    type V = Seq<Task<F>>;

    closed spec fn view(&self) -> Seq<Task<F>> {
        self.task_queue@
    }
}

/// The run queue after a task taken from it was polled with `outcome`: a
/// completed task is gone, a pending one is queued again at the tail.
pub open spec fn requeue<F>(queue: Seq<Task<F>>, task: Task<F>, outcome: Poll<()>) -> Seq<Task<F>> {
    match outcome {
        Poll::Ready(_) => queue,
        Poll::Pending => queue.push(task),
    }
}

impl<F> SimpleExecutor<F> {
    /// An executor with an empty run queue.
    pub fn new() -> (r: Self)
        ensures
            r@ == Seq::<Task<F>>::empty(),
    {
        SimpleExecutor { task_queue: VecDeque::new() }
    }

    /// Appends `task` to the tail of the run queue.
    pub fn spawn(&mut self, task: Task<F>)
        ensures
            final(self)@ == old(self)@.push(task),
    {
        self.task_queue.push_back(task)
    }

    /// Takes the task at the head of the run queue, or `None` when the queue
    /// is empty and the run is over.
    pub fn next_task(&mut self) -> (r: Option<Task<F>>)
        ensures
            old(self)@.len() == 0 ==> r is None && final(self)@ == old(self)@,
            old(self)@.len() > 0 ==> r == Some(old(self)@[0]) && final(self)@ == old(self)@.drop_first(),
    {
        self.task_queue.pop_front()
    }

    /// Records the outcome of polling `task` once: a completed task is
    /// dropped, a pending one goes back to the tail of the run queue.
    pub fn complete_poll(&mut self, task: Task<F>, outcome: Poll<()>)
        ensures
            final(self)@ == requeue(old(self)@, task, outcome),
    {
        match outcome {
            Poll::Ready(()) => {},
            Poll::Pending => self.task_queue.push_back(task),
        }
    }
}

} // verus!
