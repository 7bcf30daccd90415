//! The task manager: ready tasks under the configured scheduling policy.

use vstd::prelude::*;
use crate::sched::{
    build_scheduler, RoundRobinScheduler, SchedInfo, Scheduler, DEFAULT_SCHEDULER_POLICY,
    ROUND_ROBIN_TIME_SLICE,
};
use crate::task::{TaskControlBlock, TaskControlBlockInner, TaskStatus};

verus! {

/// `task` with its scheduling bookkeeping replaced by `info`.
pub open spec fn with_sched(task: TaskControlBlock, info: SchedInfo) -> TaskControlBlock {
    TaskControlBlock {
        inner: TaskControlBlockInner { sched_info: info, ..task.inner },
        ..task
    }
}

/// `task` as it is queued at tick `now`.
pub open spec fn enqueued_at(task: TaskControlBlock, now: usize) -> TaskControlBlock {
    with_sched(
        task,
        SchedInfo {
            ready_since: now,
            slice_ticks: 0,
            in_ready_queue: true,
            ..task.inner.sched_info
        },
    )
}

pub struct TaskManager {
    pub scheduler: RoundRobinScheduler,
}

impl TaskManager {
    pub fn new() -> (m: Self)
        ensures
            m.scheduler.ready_queue@ == Seq::<TaskControlBlock>::empty(),
    {
        TaskManager { scheduler: build_scheduler(DEFAULT_SCHEDULER_POLICY) }
    }

    /// Makes `task` ready at tick `now`. A task that is already queued is
    /// not queued twice.
    pub fn add(&mut self, task: TaskControlBlock, now: usize)
        requires
            old(self).scheduler.ready_queue@.len() < usize::MAX,
        ensures
            task.inner.sched_info.in_ready_queue ==> final(self).scheduler.ready_queue@
                == old(self).scheduler.ready_queue@,
            !task.inner.sched_info.in_ready_queue ==> final(self).scheduler.ready_queue@
                == old(self).scheduler.ready_queue@.push(enqueued_at(task, now)),
    {
        let mut task = task;
        let should_enqueue = task.inner.sched_info.on_enqueue(now);
        if should_enqueue {
            self.scheduler.enqueue(task);
        }
    }

    /// Takes the next task to run at tick `now`, if any.
    pub fn fetch(&mut self, now: usize) -> (task: Option<TaskControlBlock>)
        ensures
            old(self).scheduler.ready_queue@.len() == 0 ==> task.is_none()
                && final(self).scheduler.ready_queue@ == old(self).scheduler.ready_queue@,
            old(self).scheduler.ready_queue@.len() > 0 ==> {
                let front = old(self).scheduler.ready_queue@[0];
                &&& task == Some(with_sched(front, front.inner.sched_info.dispatched(now)))
                &&& final(self).scheduler.ready_queue@ == old(self).scheduler.ready_queue@.drop_first()
            },
    {
        let task = self.scheduler.dequeue(now);
        match task {
            Some(t) => {
                let mut t = t;
                t.inner.sched_info.on_dispatch(now);
                Some(t)
            },
            None => None,
        }
    }

    /// Whether `current` should give up the processor at tick `now`.
    pub fn should_preempt(&mut self, current: &TaskControlBlock, now: usize) -> (b: bool)
        ensures
            final(self).scheduler.ready_queue@ == old(self).scheduler.ready_queue@,
            b == (old(self).scheduler.ready_queue@.len() > 0
                && current.inner.sched_info.slice_ticks >= ROUND_ROBIN_TIME_SLICE),
    {
        self.scheduler.should_preempt(current, now)
    }

    pub fn scheduler_name(&self) -> (n: &'static str)
        ensures
            n@ == "round-robin"@,
    {
        self.scheduler.name()
    }

    /// Marks a blocked task ready again and hands it to the scheduler.
    pub fn wakeup_task(&mut self, task: TaskControlBlock, now: usize)
        requires
            old(self).scheduler.ready_queue@.len() < usize::MAX,
        ensures
            task.inner.sched_info.in_ready_queue ==> final(self).scheduler.ready_queue@
                == old(self).scheduler.ready_queue@,
            !task.inner.sched_info.in_ready_queue ==> final(self).scheduler.ready_queue@
                == old(self).scheduler.ready_queue@.push(
                enqueued_at(
                    TaskControlBlock {
                        inner: TaskControlBlockInner {
                            task_status: TaskStatus::Ready,
                            ..task.inner
                        },
                        ..task
                    },
                    now,
                ),
            ),
    {
        let mut task = task;
        task.inner_exclusive_access().task_status = TaskStatus::Ready;
        self.add(task, now);
    }
}

} // verus!
