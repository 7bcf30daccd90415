//! Task control blocks.

use vstd::prelude::*;
use crate::sched::{SchedInfo, DEFAULT_PRIORITY, MAX_PRIORITY};

verus! {

#[derive(Copy, Clone, Debug, PartialEq, Eq, Structural)]
pub enum TaskStatus {
    Ready,
    Running,
    Blocked,
}

/// A thread's user resources: its id inside the owning process and the
/// base address of the process's user stacks. `owns_user_pages` says
/// whether its user stack and trap-context pages were allocated along with
/// it (a forked thread inherits them with the copied address space).
#[derive(Copy, Clone, Debug, PartialEq, Eq, Structural)]
pub struct TaskUserRes {
    pub tid: usize,
    pub ustack_base: usize,
    pub owns_user_pages: bool,
}

/// The part of a task that changes while it lives.
pub struct TaskControlBlockInner {
    /// The thread's user resources, until they are released at exit.
    pub res: Option<TaskUserRes>,
    /// Physical page holding the task's trap context.
    pub trap_cx_ppn: u64,
    pub task_status: TaskStatus,
    pub exit_code: Option<i32>,
    pub sched_info: SchedInfo,
}

/// A thread of a process.
pub struct TaskControlBlock {
    /// Pid of the owning process.
    pub pid: usize,
    /// Root page-table page of the owning process's address space.
    pub process_root_ppn: u64,
    pub inner: TaskControlBlockInner,
}

/// The `satp` token that selects Sv39 translation rooted at `root_ppn`.
pub open spec fn spec_satp_token(root_ppn: u64) -> u64 {
    (8u64 << 60u64) | root_ppn
}

impl TaskControlBlock {
    /// A ready thread of process `pid` (whose address space is rooted at
    /// `process_root_ppn`) with thread id `tid` and the default priority.
    pub fn new(
        pid: usize,
        process_root_ppn: u64,
        tid: usize,
        ustack_base: usize,
        alloc_user_res: bool,
        trap_cx_ppn: u64,
    ) -> (t: Self)
        ensures
            t.pid == pid,
            t.process_root_ppn == process_root_ppn,
            t.inner.res == Some(TaskUserRes { tid, ustack_base, owns_user_pages: alloc_user_res }),
            t.inner.trap_cx_ppn == trap_cx_ppn,
            t.inner.task_status == TaskStatus::Ready,
            t.inner.exit_code.is_none(),
            t.inner.sched_info == SchedInfo::spec_new(DEFAULT_PRIORITY),
    {
        Self::new_with_priority(pid, process_root_ppn, tid, ustack_base, alloc_user_res, trap_cx_ppn, DEFAULT_PRIORITY)
    }

    /// A ready thread of process `pid` with thread id `tid` and the given
    /// priority.
    pub fn new_with_priority(
        pid: usize,
        process_root_ppn: u64,
        tid: usize,
        ustack_base: usize,
        alloc_user_res: bool,
        trap_cx_ppn: u64,
        priority: usize,
    ) -> (t: Self)
        requires
            priority <= MAX_PRIORITY,
        ensures
            t.pid == pid,
            t.process_root_ppn == process_root_ppn,
            t.inner.res == Some(TaskUserRes { tid, ustack_base, owns_user_pages: alloc_user_res }),
            t.inner.trap_cx_ppn == trap_cx_ppn,
            t.inner.task_status == TaskStatus::Ready,
            t.inner.exit_code.is_none(),
            t.inner.sched_info == SchedInfo::spec_new(priority),
    {
        TaskControlBlock {
            pid,
            process_root_ppn,
            inner: TaskControlBlockInner {
                res: Some(TaskUserRes { tid, ustack_base, owns_user_pages: alloc_user_res }),
                trap_cx_ppn,
                task_status: TaskStatus::Ready,
                exit_code: None,
                sched_info: SchedInfo::new(priority),
            },
        }
    }

    /// Exclusive access to the mutable part of the task.
    pub fn inner_exclusive_access(&mut self) -> (inner: &mut TaskControlBlockInner)
        ensures
            *inner == old(self).inner,
            final(self).inner == *final(inner),
            final(self).pid == old(self).pid,
            final(self).process_root_ppn == old(self).process_root_ppn,
    {
        &mut self.inner
    }

    /// The `satp` token of the owning process's address space.
    pub fn get_user_token(&self) -> (token: u64)
        ensures
            token == spec_satp_token(self.process_root_ppn),
    {
        (8u64 << 60u64) | self.process_root_ppn
    }
}

impl TaskControlBlockInner {
    /// Physical page of the trap context.
    pub fn get_trap_cx(&self) -> (ppn: u64)
        ensures
            ppn == self.trap_cx_ppn,
    {
        self.trap_cx_ppn
    }

    pub fn get_status(&self) -> (s: TaskStatus)
        ensures
            s == self.task_status,
    {
        self.task_status
    }
}

} // verus!
