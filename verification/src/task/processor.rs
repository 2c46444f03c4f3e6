//! The task running on the processor.
use vstd::prelude::*;

use crate::task::task::TaskControlBlock;

verus! {

/// Holds the task that is running, if any.
pub struct Processor {
    current: Option<TaskControlBlock>,
}

impl Processor {
    /// The running task.
    pub closed spec fn current(&self) -> Option<TaskControlBlock> {
        self.current
    }

    /// A processor running no task.
    pub fn new() -> (p: Self)
        ensures
            p.current() is None,
    {
        Processor { current: None }
    }

    /// Takes the running task out, leaving none running.
    pub fn take_current(&mut self) -> (r: Option<TaskControlBlock>)
        ensures
            r == old(self).current(),
            final(self).current() is None,
    {
        self.current.take()
    }

    /// Makes `task` (or no task) the running one.
    pub fn set_current(&mut self, task: Option<TaskControlBlock>)
        ensures
            final(self).current() == task,
    {
        self.current = task;
    }

    /// The pid of the running task.
    pub fn current_pid(&self) -> (r: Option<usize>)
        ensures
            r == match self.current() {
                Some(t) => Some(t.pid()),
                None => None,
            },
    {
        match &self.current {
            Some(t) => Some(t.getpid()),
            None => None,
        }
    }
}

} // verus!
