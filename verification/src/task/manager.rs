//! The queue of the tasks that are ready to run.

use vstd::prelude::*;
use std::collections::VecDeque;

verus! {

/// The tasks that are ready to run, by process number, first come first served.
pub struct TaskManager {
    ready_queue: VecDeque<usize>,
}

impl View for TaskManager {
    type V = Seq<usize>;

    closed spec fn view(&self) -> Seq<usize> {
        self.ready_queue@
    }
}

impl TaskManager {
    /// An empty queue.
    pub fn new() -> (r: Self)
        ensures
            r@ == Seq::<usize>::empty(),
    {
        TaskManager { ready_queue: VecDeque::new() }
    }

    /// Puts task `pid` at the end of the queue.
    pub fn add(&mut self, pid: usize)
        ensures
            final(self)@ == old(self)@.push(pid),
    {
        self.ready_queue.push_back(pid);
    }

    /// Takes the task at the front of the queue.
    pub fn fetch(&mut self) -> (r: Option<usize>)
        ensures
            match r {
                Some(pid) => old(self)@.len() > 0 && pid == old(self)@[0] && final(self)@ == old(self)@.subrange(1, old(self)@.len() as int),
                None => old(self)@.len() == 0 && final(self)@ == old(self)@,
            },
    {
        self.ready_queue.pop_front()
    }

    /// Number of tasks in the queue.
    pub fn len(&self) -> (r: usize)
        ensures
            r == self@.len(),
    {
        self.ready_queue.len()
    }
}

/// Puts task `pid` at the end of the queue of `manager`.
pub fn add_task(manager: &mut TaskManager, pid: usize)
    ensures
        final(manager)@ == old(manager)@.push(pid),
{
    manager.add(pid)
}

/// Takes the task at the front of the queue of `manager`.
pub fn fetch_task(manager: &mut TaskManager) -> (r: Option<usize>)
    ensures
        match r {
            Some(pid) => old(manager)@.len() > 0 && pid == old(manager)@[0] && final(manager)@
                == old(manager)@.subrange(1, old(manager)@.len() as int),
            None => old(manager)@.len() == 0 && final(manager)@ == old(manager)@,
        },
{
    manager.fetch()
}

} // verus!
