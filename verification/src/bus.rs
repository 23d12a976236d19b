//! The bus: the serial queue on which everything that changes a tree after
//! its first render waits for its turn.

use crate::instance::Link;
use std::collections::VecDeque;
use vstd::prelude::*;

verus! {

/// One unit of work for the bus.
#[derive(Clone, Copy, Debug, PartialEq, Eq, Hash, Structural)]
pub enum Task {
    /// A setter was invoked: store `value` in the state slot `slot` of the
    /// instance `link`, then render that instance again.
    Update { link: Link, slot: usize, value: u64 },
    /// Render the instance `link` again.
    Rerender { link: Link },
    /// Run the asynchronous task `task` that the instance `link` submitted.
    Async { link: Link, task: u64 },
}

impl Task {
    /// The instance that the task is for.
    pub open spec fn target(self) -> Link {
        match self {
            Task::Update { link, .. } => link,
            Task::Rerender { link } => link,
            Task::Async { link, .. } => link,
        }
    }
}

/// A queue of tasks that are taken one at a time, in the order in which they
/// were queued.
#[derive(Debug)]
pub struct Bus {
    tasks: VecDeque<Task>,
}

impl View for Bus {
    type V = Seq<Task>;

    /// The tasks that wait, the one that has waited longest first.
    closed spec fn view(&self) -> Seq<Task> {
        self.tasks@
    }
}

impl Bus {
    /// A bus with nothing queued.
    pub fn new() -> (bus: Bus)
        ensures
            bus@ == Seq::<Task>::empty(),
    {
        Bus { tasks: VecDeque::new() }
    }

    /// Queues `task` behind everything queued before.
    pub fn queue_retain(&mut self, task: Task)
        ensures
            final(self)@ == old(self)@.push(task),
    {
        self.tasks.push_back(task);
    }

    /// Takes the task that has waited longest; `None` when none waits.
    pub fn next(&mut self) -> (task: Option<Task>)
        ensures
            old(self)@.len() == 0 ==> task.is_none() && final(self)@ == old(self)@,
            old(self)@.len() > 0 ==> task == Some(old(self)@[0]) && final(self)@ == old(self)@.drop_first(),
    {
        let task = self.tasks.pop_front();
        proof {
            if old(self)@.len() > 0 {
                assert(self@ =~= old(self)@.drop_first());
            }
        }
        task
    }

    /// How many tasks wait.
    pub fn len(&self) -> (n: usize)
        ensures
            n == self@.len(),
    {
        self.tasks.len()
    }
}

} // verus!
