//! The write queue shared by the worker pool, with budget-gated admission.
//!
//! The pool is modelled as the decision core of the concurrent subsystem: an
//! ordered queue of `WriteOperation`s, unbounded in operation count but
//! bounded in aggregate reserved bytes by a `MemoryTracker`. `try_queue_task`
//! performs the check-then-reserve admission and either enqueues the
//! operation or hands it straight back for synchronous execution — refusal
//! never blocks. `shutdown` stops submissions and hands out every queued
//! operation, in queue order, for the surrounding runtime to drain; no
//! admitted operation is ever dropped unexecuted. The runtime that executes
//! the operations concurrently lives outside this crate; it owes each handed
//! out operation exactly one execution.

use vstd::prelude::*;

use crate::memory_tracker::MemoryTracker;
use crate::write_ops::{OpView, WriteOperation};

verus! {

/// A queued write operation together with the byte size reserved for it.
pub struct QueuedTask {
    pub size: u64,
    pub op: WriteOperation,
}

/// Mathematical image of a queued task.
pub ghost struct TaskView {
    pub size: int,
    pub op: OpView,
}

impl View for QueuedTask {
    type V = TaskView;

    open spec fn view(&self) -> TaskView {
        TaskView { size: self.size as int, op: self.op@ }
    }
}

/// Aggregate reserved size of a queue of tasks.
pub open spec fn sum_sizes(ts: Seq<TaskView>) -> int
    decreases ts.len(),
{
    if ts.len() == 0 {
        0
    } else {
        sum_sizes(ts.drop_last()) + ts.last().size
    }
}

proof fn lemma_sum_sizes_push(s: Seq<TaskView>, t: TaskView)
    ensures
        sum_sizes(s.push(t)) == sum_sizes(s) + t.size,
{
    assert(s.push(t).drop_last() =~= s);
    assert(s.push(t).last() == t);
}

/// Mathematical image of the pool: its queue and its budget counters.
pub ghost struct PoolModel {
    pub pending: Seq<TaskView>,
    pub used: int,
    pub cap: int,
}

/// Fixed set of concurrent writers draining one shared FIFO queue whose
/// aggregate buffered bytes are bounded by the memory budget.
pub struct ThreadPool {
    num_threads: usize,
    memory_tracker: MemoryTracker,
    pending: Vec<QueuedTask>,
}

impl ThreadPool {
    /// The queued, not-yet-executed operations, in queue order.
    pub closed spec fn pending_tasks(self) -> Seq<TaskView> {
        self.pending@.map_values(|t: QueuedTask| t@)
    }

    /// Bytes currently reserved for the queued operations.
    pub closed spec fn used(self) -> int {
        self.memory_tracker.used()
    }

    /// The configured cap on aggregate buffered bytes.
    pub closed spec fn cap(self) -> int {
        self.memory_tracker.cap()
    }

    /// Number of concurrent writers the surrounding runtime drains the queue
    /// with. It does not influence which operations are admitted.
    pub closed spec fn workers(self) -> int {
        self.num_threads as int
    }

    /// The pool as a `PoolModel` value.
    pub open spec fn model(self) -> PoolModel {
        PoolModel { pending: self.pending_tasks(), used: self.used(), cap: self.cap() }
    }

    /// The budget counter tracks exactly the aggregate size of the queued
    /// operations, and never exceeds the cap.
    pub open spec fn wf(self) -> bool {
        &&& self.used() <= self.cap()
        &&& sum_sizes(self.pending_tasks()) == self.used()
    }

    pub fn new(num_threads: usize, memory_tracker: MemoryTracker) -> (r: ThreadPool)
        requires
            memory_tracker.used() == 0,
            memory_tracker.wf(),
        ensures
            r.wf(),
            r.pending_tasks() =~= Seq::<TaskView>::empty(),
            r.used() == 0,
            r.cap() == memory_tracker.cap(),
            r.workers() == num_threads,
    {
        let r = ThreadPool { num_threads, memory_tracker, pending: Vec::new() };
        proof {
            assert(r.pending_tasks() =~= Seq::<TaskView>::empty());
        }
        r
    }

    /// Admission-gated enqueue. The operation is queued exactly when
    /// `task_size` more buffered bytes fit under the cap; otherwise it is
    /// handed back unchanged and the caller must execute it synchronously.
    pub fn try_queue_task(&mut self, task_size: u64, task: WriteOperation) -> (refused: Option<
        WriteOperation,
    >)
        requires
            old(self).wf(),
        ensures
            final(self).wf(),
            final(self).cap() == old(self).cap(),
            final(self).workers() == old(self).workers(),
            match refused {
                None => {
                    &&& old(self).used() + task_size <= old(self).cap()
                    &&& final(self).pending_tasks() == old(self).pending_tasks().push(
                        TaskView { size: task_size as int, op: task@ },
                    )
                    &&& final(self).used() == old(self).used() + task_size
                },
                Some(t) => {
                    &&& old(self).used() + task_size > old(self).cap()
                    &&& t == task
                    &&& *final(self) == *old(self)
                },
            },
    {
        if self.memory_tracker.can_allocate(task_size) {
            self.memory_tracker.reserve(task_size);
            let ghost before = self.pending_tasks();
            let ghost tv = TaskView { size: task_size as int, op: task@ };
            self.pending.push(QueuedTask { size: task_size, op: task });
            proof {
                assert(self.pending_tasks() =~= before.push(tv));
                lemma_sum_sizes_push(before, tv);
            }
            None
        } else {
            Some(task)
        }
    }

    /// Stop submissions and hand out every queued operation, in queue order,
    /// for the runtime to drain. Every operation ever admitted is either
    /// already executing in a worker or in this list — none is dropped.
    pub fn shutdown(self) -> (r: Vec<QueuedTask>)
        ensures
            r@.map_values(|t: QueuedTask| t@) == self.pending_tasks(),
    {
        self.pending
    }
}

/// Budget law of the queue: for a cap of C bytes, the sum of the sizes of
/// the concurrently in-flight queued, not-yet-completed operations never
/// exceeds C, whatever the cap — even a cap of zero.
pub proof fn lemma_queued_bytes_bounded(p: ThreadPool)
    requires
        p.wf(),
    ensures
        sum_sizes(p.pending_tasks()) <= p.cap(),
{
}

} // verus!
