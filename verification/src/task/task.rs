//! The scheduling state of a task: its pid, priority and stride pass.
use vstd::prelude::*;

verus! {

/// The constant that a task's priority divides to give its stride.
pub const BIG_STRIDE: usize = 0x10_0000;

/// The priority a task starts with.
pub const DEFAULT_PRIORITY: usize = 16;

/// The stride a task of `priority` advances by when it is scheduled:
/// `BIG_STRIDE / priority`, and at least 1.
pub open spec fn stride_of(priority: usize) -> nat {
    if priority == 0 || BIG_STRIDE / priority == 0 {
        1
    } else {
        (BIG_STRIDE / priority) as nat
    }
}

/// `pass` advanced by the stride of `priority`, held at `usize::MAX`.
pub open spec fn next_pass(pass: usize, priority: usize) -> usize {
    if pass + stride_of(priority) > usize::MAX {
        usize::MAX
    } else {
        (pass + stride_of(priority)) as usize
    }
}

/// Scheduling a task of priority `priority` advances its pass by
/// `max(1, BIG_STRIDE / priority)`, stopping at `usize::MAX`; a task of
/// higher priority never advances by more than one of lower priority.
pub proof fn lemma_next_pass(pass: usize, priority: usize, lower: usize)
    requires
        priority > 0,
        0 < lower <= priority,
    ensures
        BIG_STRIDE / priority >= 1 && pass + BIG_STRIDE / priority <= usize::MAX ==> next_pass(pass, priority)
            == pass + BIG_STRIDE / priority,
        BIG_STRIDE / priority == 0 && pass < usize::MAX ==> next_pass(pass, priority) == pass + 1,
        pass + BIG_STRIDE / priority > usize::MAX ==> next_pass(pass, priority) == usize::MAX,
        pass == usize::MAX ==> next_pass(pass, priority) == usize::MAX,
        next_pass(pass, priority) > pass || pass == usize::MAX,
        next_pass(pass, priority) <= next_pass(pass, lower),
{
    assert(BIG_STRIDE / priority <= BIG_STRIDE / lower) by (nonlinear_arith)
        requires
            0 < lower <= priority,
    ;
}

/// The part of a task control block that the stride scheduler reads and
/// writes. The priority is never zero.
pub struct TaskControlBlock {
    pid: usize,
    priority: usize,
    stride_pass: usize,
}

impl TaskControlBlock {
    #[verifier::type_invariant]
    spec fn inv(self) -> bool {
        self.priority > 0
    }

    /// The task's pid.
    pub closed spec fn pid(self) -> usize {
        self.pid
    }

    /// The task's priority.
    pub closed spec fn priority(self) -> usize {
        self.priority
    }

    /// The task's stride pass.
    pub closed spec fn pass(self) -> usize {
        self.stride_pass
    }

    /// A task with the default priority that has not run yet.
    pub fn new(pid: usize) -> (t: Self)
        ensures
            t.pid() == pid,
            t.priority() == DEFAULT_PRIORITY,
            t.pass() == 0,
    {
        TaskControlBlock { pid, priority: DEFAULT_PRIORITY, stride_pass: 0 }
    }

    /// A task with the given priority and stride pass.
    pub fn with_priority(pid: usize, priority: usize, stride_pass: usize) -> (t: Self)
        requires
            priority > 0,
        ensures
            t.pid() == pid,
            t.priority() == priority,
            t.pass() == stride_pass,
    {
        TaskControlBlock { pid, priority, stride_pass }
    }

    /// The task's pid.
    pub fn getpid(&self) -> (r: usize)
        ensures
            r == self.pid(),
    {
        self.pid
    }

    /// The task's priority, never zero.
    pub fn get_priority(&self) -> (r: usize)
        ensures
            r == self.priority(),
            r > 0,
    {
        proof {
            use_type_invariant(self);
        }
        self.priority
    }

    /// The task's stride pass.
    pub fn stride_pass(&self) -> (r: usize)
        ensures
            r == self.pass(),
    {
        self.stride_pass
    }

    /// Advances the pass by the task's stride, `max(1, BIG_STRIDE / priority)`.
    pub fn advance_stride(&mut self)
        ensures
            final(self).pid() == old(self).pid(),
            final(self).priority() == old(self).priority(),
            final(self).pass() == next_pass(old(self).pass(), old(self).priority()),
            old(self).pass() + BIG_STRIDE / old(self).priority() <= usize::MAX && BIG_STRIDE / old(
                self,
            ).priority() >= 1 ==> final(self).pass() == old(self).pass() + BIG_STRIDE / old(self).priority(),
            old(self).pass() + BIG_STRIDE / old(self).priority() > usize::MAX ==> final(self).pass()
                == usize::MAX,
    {
        proof {
            use_type_invariant(&*self);
        }
        let q = BIG_STRIDE / self.priority;
        let stride = if q == 0 {
            1
        } else {
            q
        };
        self.stride_pass = self.stride_pass.saturating_add(stride);
    }
}

} // verus!
