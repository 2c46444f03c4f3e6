//! The ready queue of the stride scheduler.
use vstd::prelude::*;

use std::collections::VecDeque;

use crate::task::task::{next_pass, TaskControlBlock};

verus! {

/// Task `a` goes before task `b`: a smaller pass, or the same pass and a smaller pid.
pub open spec fn runs_before(a: TaskControlBlock, b: TaskControlBlock) -> bool {
    a.pass() < b.pass() || (a.pass() == b.pass() && a.pid() < b.pid())
}

/// The index of the first task that no task goes before.
pub open spec fn first_min(s: Seq<TaskControlBlock>) -> int
    decreases s.len(),
{
    if s.len() <= 1 {
        0
    } else {
        let m = first_min(s.drop_last());
        if runs_before(s.last(), s[m]) {
            s.len() - 1
        } else {
            m
        }
    }
}

/// The task at `first_min` has the least (pass, pid) of the queue, and every
/// task before it has a strictly greater one.
pub proof fn lemma_first_min(s: Seq<TaskControlBlock>)
    requires
        s.len() > 0,
    ensures
        0 <= first_min(s) < s.len(),
        forall|j: int| 0 <= j < s.len() ==> !runs_before(#[trigger] s[j], s[first_min(s)]),
        forall|j: int| 0 <= j < first_min(s) ==> runs_before(s[first_min(s)], #[trigger] s[j]),
    decreases s.len(),
{
    if s.len() > 1 {
        let t = s.drop_last();
        lemma_first_min(t);
        let m = first_min(t);
        assert forall|j: int| 0 <= j < s.len() - 1 implies #[trigger] s[j] == t[j] by {}
    }
}

/// Fetching from queue `q` gave `r` and left `q2`: nothing from an empty
/// queue; otherwise the task at `first_min(q)`, taken out, with its pass
/// advanced by its stride.
pub open spec fn fetched(q: Seq<TaskControlBlock>, r: Option<TaskControlBlock>, q2: Seq<TaskControlBlock>) -> bool {
    match r {
        None => q.len() == 0 && q2 == q,
        Some(t) => {
            let i = first_min(q);
            &&& q.len() > 0
            &&& q2 == q.remove(i)
            &&& t.pid() == q[i].pid()
            &&& t.priority() == q[i].priority()
            &&& t.pass() == next_pass(q[i].pass(), q[i].priority())
        },
    }
}

/// The pids of the tasks of a queue, each counted as often as it occurs.
pub open spec fn queued_pids(q: Seq<TaskControlBlock>) -> vstd::multiset::Multiset<usize> {
    q.map_values(|t: TaskControlBlock| t.pid()).to_multiset()
}

/// The pids of the tasks that a run of fetches returned.
pub open spec fn fetched_pids(rs: Seq<Option<TaskControlBlock>>) -> vstd::multiset::Multiset<usize> {
    rs.map_values(|r: Option<TaskControlBlock>| r->0.pid()).to_multiset()
}

/// A fetch returns a task exactly when the queue is not empty, and then takes
/// that one task out: the queue is one shorter and has lost the fetched pid
/// and no other.
pub proof fn lemma_fetch_takes_one(q: Seq<TaskControlBlock>, r: Option<TaskControlBlock>, q2: Seq<TaskControlBlock>)
    requires
        fetched(q, r, q2),
    ensures
        r is Some <==> q.len() > 0,
        r is None ==> q2 == q,
        r matches Some(t) ==> q2.len() == q.len() - 1 && queued_pids(q) == queued_pids(q2).insert(t.pid()),
{
    broadcast use vstd::seq_lib::group_to_multiset_ensures;

    if let Some(t) = r {
        let i = first_min(q);
        lemma_first_min(q);
        let f = |t: TaskControlBlock| t.pid();
        assert(q2.map_values(f) =~= q.map_values(f).remove(i));
        assert(q.map_values(f).remove(i).to_multiset() =~= q.map_values(f).to_multiset().remove(
            q.map_values(f)[i],
        ));
        assert(queued_pids(q) =~= queued_pids(q2).insert(t.pid()));
    }
}

/// A run of fetches, the `i`-th from queue `qs[i]`, returning `rs[i]` and
/// leaving `qs[i + 1]`, no longer than the first queue: each fetch returns a
/// task, and the tasks returned together with those still queued are the
/// tasks of the first queue.
pub proof fn lemma_fetches_take_in_turn(qs: Seq<Seq<TaskControlBlock>>, rs: Seq<Option<TaskControlBlock>>)
    requires
        qs.len() == rs.len() + 1,
        rs.len() <= qs[0].len(),
        forall|i: int| 0 <= i < rs.len() ==> fetched(qs[i], #[trigger] rs[i], qs[i + 1]),
    ensures
        forall|i: int| 0 <= i < rs.len() ==> #[trigger] rs[i] is Some,
        qs[rs.len() as int].len() == qs[0].len() - rs.len(),
        queued_pids(qs[0]) == fetched_pids(rs).add(queued_pids(qs[rs.len() as int])),
    decreases rs.len(),
{
    broadcast use vstd::seq_lib::group_to_multiset_ensures;
    broadcast use vstd::multiset::group_multiset_axioms;

    let f = |r: Option<TaskControlBlock>| r->0.pid();
    if rs.len() == 0 {
        assert(rs.map_values(f) =~= Seq::<usize>::empty());
        assert(fetched_pids(rs) =~= vstd::multiset::Multiset::<usize>::empty());
        assert(queued_pids(qs[0]) =~= fetched_pids(rs).add(queued_pids(qs[0])));
    } else {
        let k = rs.len() - 1;
        let qs1 = qs.drop_last();
        let rs1 = rs.drop_last();
        assert forall|i: int| 0 <= i < rs1.len() implies fetched(qs1[i], #[trigger] rs1[i], qs1[i + 1]) by {
            assert(fetched(qs[i], rs[i], qs[i + 1]));
        }
        lemma_fetches_take_in_turn(qs1, rs1);
        assert(fetched(qs[k], rs[k], qs[k + 1]));
        lemma_fetch_takes_one(qs[k], rs[k], qs[k + 1]);
        let p = rs[k]->0.pid();
        assert(rs.map_values(f) =~= rs1.map_values(f).push(p));
        assert(fetched_pids(rs) =~= fetched_pids(rs1).insert(p));
        assert(queued_pids(qs[0]) =~= fetched_pids(rs).add(queued_pids(qs[k + 1])));
        assert forall|i: int| 0 <= i < rs.len() implies #[trigger] rs[i] is Some by {
            if i < k {
                assert(rs1[i] == rs[i]);
            }
        }
    }
}

/// From a ready queue of `n` tasks (such as `n` tasks added to an empty one),
/// `n` fetches each return a task, every queued task once, and leave the
/// queue empty.
pub proof fn lemma_fetches_drain(qs: Seq<Seq<TaskControlBlock>>, rs: Seq<Option<TaskControlBlock>>)
    requires
        qs.len() == rs.len() + 1,
        rs.len() == qs[0].len(),
        forall|i: int| 0 <= i < rs.len() ==> fetched(qs[i], #[trigger] rs[i], qs[i + 1]),
    ensures
        forall|i: int| 0 <= i < rs.len() ==> #[trigger] rs[i] is Some,
        qs[rs.len() as int].len() == 0,
        fetched_pids(rs) == queued_pids(qs[0]),
{
    broadcast use vstd::multiset::group_multiset_axioms;
    broadcast use vstd::seq_lib::group_to_multiset_ensures;

    lemma_fetches_take_in_turn(qs, rs);
    let last = qs[rs.len() as int];
    assert(queued_pids(last).len() == 0);
    vstd::multiset::lemma_multiset_empty_len(queued_pids(last));
    assert(fetched_pids(rs).add(queued_pids(last)) =~= fetched_pids(rs));
}

/// The ready queue of tasks waiting to run.
pub struct TaskManager {
    ready_queue: VecDeque<TaskControlBlock>,
}

impl TaskManager {
    /// The queued tasks, oldest first.
    pub closed spec fn queue(&self) -> Seq<TaskControlBlock> {
        self.ready_queue@
    }

    /// An empty ready queue.
    pub fn new() -> (m: Self)
        ensures
            m.queue() == Seq::<TaskControlBlock>::empty(),
    {
        Self { ready_queue: VecDeque::new() }
    }

    /// Puts a task at the back of the ready queue.
    pub fn add(&mut self, task: TaskControlBlock)
        ensures
            final(self).queue() == old(self).queue().push(task),
    {
        self.ready_queue.push_back(task);
    }

    /// Takes out the first task with the least stride pass (ties go to the
    /// smaller pid), advances its pass by its stride and returns it; `None`
    /// when the queue is empty.
    pub fn fetch(&mut self) -> (r: Option<TaskControlBlock>)
        ensures
            fetched(old(self).queue(), r, final(self).queue()),
    {
        let ghost q = self.ready_queue@;
        let mut best: Option<(usize, usize, usize)> = None;
        let mut idx: usize = 0;
        while idx < self.ready_queue.len()
            invariant
                self.ready_queue@ == q,
                idx <= q.len(),
                best is None <==> idx == 0,
                best matches Some((b, bp, bpid)) ==> {
                    &&& b == first_min(q.take(idx as int))
                    &&& b < idx
                    &&& bp == q[b as int].pass()
                    &&& bpid == q[b as int].pid()
                },
            decreases q.len() - idx,
        {
            let task = &self.ready_queue[idx];
            let pass = task.stride_pass();
            let pid = task.getpid();
            let ghost prefix = q.take(idx as int + 1);
            proof {
                assert(prefix.drop_last() =~= q.take(idx as int));
                assert(prefix.last() == q[idx as int]);
            }
            match best {
                Some((b, best_pass, best_pid)) if pass > best_pass || (pass == best_pass && pid >= best_pid) => {
                    proof {
                        assert(prefix[b as int] == q[b as int]);
                    }
                },
                _ => {
                    proof {
                        if idx > 0 {
                            let b = best.unwrap().0;
                            assert(prefix[b as int] == q[b as int]);
                        }
                    }
                    best = Some((idx, pass, pid));
                },
            }
            idx = idx + 1;
        }
        let i = match best {
            Some((i, _, _)) => i,
            None => return None,
        };
        proof {
            assert(q.take(q.len() as int) =~= q);
        }
        let mut task = self.ready_queue.remove(i).unwrap();
        task.advance_stride();
        Some(task)
    }
}

} // verus!
