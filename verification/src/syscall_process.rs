//! Process system calls: ids, waiting for children, signals, process
//! groups, priorities, and the terminal's foreground group.

use vstd::prelude::*;
use crate::process::{
    Process, ProcessTable, ChildInfo, FileDesc, valid_signal, signal_from_bits, SIGCONT,
};
use crate::sched::{MIN_PRIORITY, MAX_PRIORITY, SchedInfo};
use crate::manager::{TaskManager, enqueued_at};
use crate::task::{TaskControlBlock, TaskControlBlockInner, TaskStatus};
use crate::tty::{TtyInner, TtyState};
use crate::page_table::{PageTable, FLAG_V, FLAG_W};
use crate::frame_allocator::{StackFrameAllocator, PAGE_SIZE};
use crate::memory_set::{MemorySet, alloc_fits, va_limit, privatizable, private_writable, spec_floor, spec_ceil, spec_va};
use crate::phys_mem::{
    PhysMem, covers_alloc, write_user_i32, i32_slot, i32_byte, user_byte, only_fresh_changed, frame_index,
    store_phys_u64, u64_stored,
};

verus! {

/// `waitpid` option: also report children that are stopped.
pub const WUNTRACED: usize = 1;
/// User addresses lie below this bound.
pub const USER_VA_LIMIT: u64 = 0x40_0000_0000;

pub fn sys_getpid(proc: &Process) -> (r: isize)
    ensures
        r == proc.pid as isize,
{
    proc.pid as isize
}

/// The time in milliseconds, `now_ms` read from the timer.
pub fn sys_get_time(now_ms: usize) -> (r: isize)
    ensures
        r == now_ms as isize,
{
    now_ms as isize
}

pub fn sys_getpgrp(proc: &Process) -> (r: isize)
    ensures
        r == proc.pgid as isize,
{
    proc.pgid as isize
}

/// Child `c` is one that `waitpid(pid, ..)` waits for.
pub open spec fn wait_matches(pid: isize, c: ChildInfo) -> bool {
    pid == -1 || pid as usize == c.pid
}

/// Index of the first child `waitpid(pid, ..)` can reap, or -1.
pub open spec fn first_zombie(cs: Seq<ChildInfo>, pid: isize) -> int {
    if exists|i: int| 0 <= i < cs.len() && wait_matches(pid, cs[i]) && cs[i].is_zombie {
        choose|i: int|
            0 <= i < cs.len() && wait_matches(pid, cs[i]) && cs[i].is_zombie && forall|j: int|
                0 <= j < i ==> !(wait_matches(pid, cs[j]) && cs[j].is_zombie)
    } else {
        -1
    }
}

/// What `waitpid` finds among the children.
#[derive(Copy, Clone, Debug, PartialEq, Eq, Structural)]
pub enum WaitTarget {
    /// No child matches.
    NoChild,
    /// A matching child is stopped (reported only with `WUNTRACED`).
    Stopped,
    /// Matching children exist, none has exited.
    Running,
    /// The first matching child that has exited, by index.
    Zombie(usize),
}

pub open spec fn wait_target_spec(cs: Seq<ChildInfo>, pid: isize, options: usize) -> WaitTarget {
    if !exists|i: int| 0 <= i < cs.len() && wait_matches(pid, #[trigger] cs[i]) {
        WaitTarget::NoChild
    } else if options & WUNTRACED != 0 && exists|i: int| 0 <= i < cs.len() && wait_matches(pid, #[trigger] cs[i]) && cs[i].stopped {
        WaitTarget::Stopped
    } else if first_zombie(cs, pid) >= 0 {
        WaitTarget::Zombie(first_zombie(cs, pid) as usize)
    } else {
        WaitTarget::Running
    }
}

/// A child that was reaped is waited for no more: among children with
/// distinct pids, when `waitpid(pid, ..)` for a pid `pid` finds the zombie
/// at index `i` (and so reaps it and removes it from the list), a second
/// `waitpid(pid, ..)`, with any options, finds no child and returns -1.
pub proof fn lemma_reaped_child_gone(cs: Seq<ChildInfo>, i: usize, pid: isize, options: usize, options2: usize)
    requires
        pid > 0,
        cs.len() <= usize::MAX,
        wait_target_spec(cs, pid, options) == WaitTarget::Zombie(i),
        forall|a: int, b: int| 0 <= a < cs.len() && 0 <= b < cs.len() && a != b ==> (#[trigger] cs[a]).pid != (#[trigger] cs[b]).pid,
    ensures
        0 <= i < cs.len(),
        cs[i as int].pid == pid as usize,
        wait_target_spec(cs.remove(i as int), pid, options2) == WaitTarget::NoChild,
{
    let k = first_zombie(cs, pid);
    assert(k >= 0);
    assert(exists|j: int| 0 <= j < cs.len() && wait_matches(pid, cs[j]) && cs[j].is_zombie);
    assert(0 <= k < cs.len() && wait_matches(pid, cs[k]) && cs[k].is_zombie);
    assert(WaitTarget::Zombie(k as usize) == WaitTarget::Zombie(i));
    assert(k == i);
    let rest = cs.remove(i as int);
    assert forall|j: int| 0 <= j < rest.len() implies !wait_matches(pid, #[trigger] rest[j]) by {
        if j < i {
            assert(rest[j] == cs[j]);
        } else {
            assert(rest[j] == cs[j + 1]);
        }
    }
}

/// Classifies the children of `proc` for `waitpid(pid, .., options)`.
pub fn wait_target(proc: &Process, pid: isize, options: usize) -> (t: WaitTarget)
    ensures
        t == wait_target_spec(proc.children@, pid, options),
        t matches WaitTarget::Zombie(i) ==> i < proc.children@.len(),
{
    let ghost cs = proc.children@;
    let n = proc.children.len();
    let mut any = false;
    let mut stopped = false;
    let mut zombie: Option<usize> = None;
    let mut i: usize = 0;
    while i < n
        invariant
            n == cs.len(),
            cs == proc.children@,
            i <= n,
            any == exists|j: int| 0 <= j < i && wait_matches(pid, #[trigger] cs[j]),
            stopped == exists|j: int| 0 <= j < i && wait_matches(pid, #[trigger] cs[j]) && cs[j].stopped,
            match zombie {
                Some(z) => z < i && wait_matches(pid, cs[z as int]) && cs[z as int].is_zombie && forall|j: int|
                    0 <= j < z ==> !(wait_matches(pid, cs[j]) && cs[j].is_zombie),
                None => forall|j: int| 0 <= j < i ==> !(wait_matches(pid, cs[j]) && cs[j].is_zombie),
            },
        decreases n - i,
    {
        let c = proc.children[i];
        let m = pid == -1 || pid as usize == c.pid;
        if m {
            any = true;
            if c.stopped {
                stopped = true;
            }
            if zombie.is_none() && c.is_zombie {
                zombie = Some(i);
            }
        }
        proof {
            assert(cs[i as int] == c);
        }
        i = i + 1;
    }
    if !any {
        return WaitTarget::NoChild;
    }
    if options & WUNTRACED != 0 && stopped {
        return WaitTarget::Stopped;
    }
    match zombie {
        Some(z) => {
            proof {
                let c = first_zombie(cs, pid);
                assert(0 <= c < cs.len() && wait_matches(pid, cs[c]) && cs[c].is_zombie);
                if c < z {
                } else if c > z {
                }
            }
            WaitTarget::Zombie(z)
        },
        None => WaitTarget::Running,
    }
}

/// Waits for a child. -1 when no child matches, -3 when a matching child
/// is stopped under `WUNTRACED`, -2 while the matching children still run.
/// For a zombie child, the page of the 4-aligned `exit_code_ptr` is first
/// made private (a copy-on-write page gets a frame of its own, so no other
/// address space sees the write), then the child's exit code is stored
/// there, the child leaves the list and its pid is returned; -1, with the
/// child kept, when that page cannot be made private and writable or its
/// frame is not in `mem`.
pub fn sys_waitpid(
    proc: &mut Process,
    ms: &mut MemorySet,
    alloc: &mut StackFrameAllocator,
    mem: &mut PhysMem,
    pid: isize,
    exit_code_ptr: usize,
    options: usize,
) -> (r: isize)
    requires
        old(ms).wf(),
        old(ms).frames_held(&*old(alloc)),
        alloc_fits(&*old(alloc)),
        old(mem).wf(),
        covers_alloc(*old(mem), *old(alloc)),
        exit_code_ptr % 4 == 0,
        exit_code_ptr + 4 < va_limit(),
        exit_code_ptr + 4 <= usize::MAX,
        old(ms).page_needs_copy(*old(alloc), spec_floor(exit_code_ptr)) ==> old(alloc).free_frames() >= 1,
    ensures
        final(ms).wf(),
        final(ms).frames_held(&*final(alloc)),
        alloc_fits(&*final(alloc)),
        covers_alloc(*final(mem), *final(alloc)),
        final(mem).base == old(mem).base,
        match wait_target_spec(old(proc).children@, pid, options) {
            WaitTarget::NoChild => r == -1 && final(proc).children@ == old(proc).children@ && *final(ms) == *old(ms)
                && *final(mem) == *old(mem) && *final(alloc) == *old(alloc),
            WaitTarget::Stopped => r == -3 && final(proc).children@ == old(proc).children@ && *final(ms) == *old(ms)
                && *final(mem) == *old(mem) && *final(alloc) == *old(alloc),
            WaitTarget::Running => r == -2 && final(proc).children@ == old(proc).children@ && *final(ms) == *old(ms)
                && *final(mem) == *old(mem) && *final(alloc) == *old(alloc),
            WaitTarget::Zombie(i) => {
                let c = old(proc).children@[i as int];
                let v = spec_floor(exit_code_ptr);
                if privatizable(old(ms).page_table, v) && i32_slot(
                    final(ms).page_table,
                    *final(mem),
                    exit_code_ptr as int,
                ).is_some() {
                    &&& r == c.pid as isize
                    &&& final(proc).children@ == old(proc).children@.remove(i as int)
                    &&& private_writable(final(ms).page_table, v)
                    &&& forall|k: int|
                        0 <= k < 4 ==> #[trigger] user_byte(final(ms).page_table, *final(mem), exit_code_ptr + k)
                            == Some(i32_byte(c.exit_code, k as u32))
                    &&& ({
                        let d = i32_slot(final(ms).page_table, *final(mem), exit_code_ptr as int).unwrap();
                        forall|j: int| 0 <= j < old(mem).bytes@.len() && #[trigger] final(mem).bytes@[j] != old(mem).bytes@[j]
                            ==> d <= j < d + 4 || (!old(alloc).refs().contains_key(frame_index(old(mem).base as int, j))
                            && final(alloc).refs().contains_key(frame_index(old(mem).base as int, j)))
                    })
                } else {
                    &&& r == -1
                    &&& final(proc).children@ == old(proc).children@
                    &&& only_fresh_changed(old(mem).bytes@, final(mem).bytes@, old(mem).base as int, *old(alloc), *final(alloc))
                }
            },
        },
        final(proc).fd_table@ == old(proc).fd_table@,
        final(proc).pid == old(proc).pid,
        final(proc).parent == old(proc).parent,
        final(proc).pgid == old(proc).pgid,
        final(proc).priority == old(proc).priority,
        final(proc).cwd@ == old(proc).cwd@,
        final(proc).cwd_inode == old(proc).cwd_inode,
        final(proc).sched == old(proc).sched,
        final(proc).path_var@ == old(proc).path_var@,
        final(proc).sig_ignored == old(proc).sig_ignored,
{
    match wait_target(proc, pid, options) {
        WaitTarget::NoChild => -1,
        WaitTarget::Stopped => -3,
        WaitTarget::Running => -2,
        WaitTarget::Zombie(i) => {
            let ghost v = spec_floor(exit_code_ptr);
            proof {
                let end = (exit_code_ptr + 4) as usize;
                assert(spec_va(end) == end);
                let p = exit_code_ptr as int;
                assert((p + 4 + 4095) / 4096 == p / 4096 + 1) by (nonlinear_arith)
                    requires
                        p % 4 == 0,
                        p >= 0,
                ;
                assert(end as int == p + 4);
                assert(v as int == p / 4096);
                assert(spec_ceil(end) as int == (p + 4 + 4095) / 4096);
                assert(spec_ceil(end) == v + 1);
            }
            let ok = ms.ensure_private_range(exit_code_ptr, 4, alloc, mem);
            if !ok {
                return -1;
            }
            assert(private_writable(ms.page_table, v));
            let code = proc.children[i].exit_code;
            let ghost m1 = *mem;
            if !write_user_i32(&ms.page_table, mem, exit_code_ptr, code) {
                return -1;
            }
            assert(i32_slot(ms.page_table, *mem, exit_code_ptr as int) == i32_slot(ms.page_table, m1, exit_code_ptr as int));
            let child = proc.children.remove(i);
            child.pid as isize
        },
    }
}

/// `yield`: the running task `current` turns ready and goes to the back of
/// the ready queue (the processor then runs the task at its front);
/// returns 0.
pub fn sys_yield(manager: &mut TaskManager, current: TaskControlBlock, now: usize) -> (r: isize)
    requires
        old(manager).scheduler.ready_queue@.len() < usize::MAX,
    ensures
        r == 0,
        current.inner.sched_info.in_ready_queue ==> final(manager).scheduler.ready_queue@
            == old(manager).scheduler.ready_queue@,
        !current.inner.sched_info.in_ready_queue ==> final(manager).scheduler.ready_queue@
            == old(manager).scheduler.ready_queue@.push(
            enqueued_at(
                TaskControlBlock { inner: TaskControlBlockInner { task_status: TaskStatus::Ready, ..current.inner }, ..current },
                now,
            ),
        ),
{
    manager.wakeup_task(current, now);
    0
}

/// `c` is the process that a fork of `p` makes under pid `pid`: a child of
/// `p` in `p`'s process group, with `p`'s priority, descriptor table,
/// working directory, `PATH` and ignored signals, no children yet, and a
/// main thread that has never run.
pub open spec fn is_fork_child(p: Process, c: Process, pid: usize) -> bool {
    &&& c.pid == pid
    &&& c.parent == Some(p.pid)
    &&& c.pgid == p.pgid
    &&& c.priority == p.priority
    &&& c.fd_table@ == p.fd_table@
    &&& c.cwd@ == p.cwd@
    &&& c.cwd_inode == p.cwd_inode
    &&& c.path_var@ == p.path_var@
    &&& c.sig_ignored == p.sig_ignored
    &&& c.children@.len() == 0
    &&& c.sched == SchedInfo::spec_new(p.priority.unwrap())
}

/// The process records of `fork` by process `cur` (which runs, so it has a
/// priority) under the fresh pid `new_pid`: the child is added, and the
/// parent records it as a running child; returns the child's pid. The
/// address spaces are forked by `MemorySet::from_existed_user_cow`.
pub fn sys_fork(table: &mut ProcessTable, cur: usize, new_pid: usize) -> (r: isize)
    requires
        old(table).wf(),
        cur < old(table).procs@.len(),
        old(table).procs@.len() < usize::MAX,
        0 < new_pid <= isize::MAX,
        !old(table).has_pid(new_pid),
        old(table).procs@[cur as int].priority matches Some(q) && MIN_PRIORITY <= q <= MAX_PRIORITY,
    ensures
        final(table).wf(),
        r == new_pid,
        final(table).procs@.len() == old(table).procs@.len() + 1,
        forall|j: int| 0 <= j < old(table).procs@.len() && j != cur ==> #[trigger] final(table).procs@[j] == old(table).procs@[j],
        ({
            let p = old(table).procs@[cur as int];
            let q = final(table).procs@[cur as int];
            &&& q.children@ == p.children@.push(ChildInfo { pid: new_pid, is_zombie: false, stopped: false, exit_code: 0 })
            &&& q.pid == p.pid && q.parent == p.parent && q.pgid == p.pgid && q.priority == p.priority
            &&& q.fd_table@ == p.fd_table@ && q.cwd@ == p.cwd@ && q.cwd_inode == p.cwd_inode
            &&& q.path_var@ == p.path_var@ && q.sig_ignored == p.sig_ignored && q.sched == p.sched
            &&& is_fork_child(p, final(table).procs@.last(), new_pid)
        }),
{
    let ghost t0 = table.procs@;
    let p = &table.procs[cur];
    let mut fds: Vec<Option<FileDesc>> = Vec::new();
    let mut k: usize = 0;
    while k < p.fd_table.len()
        invariant
            k <= p.fd_table@.len(),
            fds@ == p.fd_table@.take(k as int),
        decreases p.fd_table@.len() - k,
    {
        fds.push(p.fd_table[k]);
        assert(fds@ =~= p.fd_table@.take(k + 1));
        k = k + 1;
    }
    assert(p.fd_table@.take(k as int) =~= p.fd_table@);
    let prio = p.priority.unwrap();
    let child = Process {
        pid: new_pid,
        parent: Some(p.pid),
        pgid: p.pgid,
        priority: p.priority,
        fd_table: fds,
        cwd: crate::editor::clone_bytes(p.cwd.as_slice()),
        cwd_inode: p.cwd_inode,
        path_var: crate::editor::clone_bytes(p.path_var.as_slice()),
        sig_ignored: p.sig_ignored,
        children: Vec::new(),
        sched: SchedInfo::new(prio),
    };
    table.procs[cur].children.push(ChildInfo { pid: new_pid, is_zombie: false, stopped: false, exit_code: 0 });
    let ghost t1 = table.procs@;
    table.procs.push(child);
    proof {
        assert forall|a: int, b: int|
            0 <= a < table.procs@.len() && 0 <= b < table.procs@.len() && a != b implies (#[trigger] table.procs@[a]).pid
            != (#[trigger] table.procs@[b]).pid by {
            if a < t0.len() && b < t0.len() {
                assert(table.procs@[a].pid == t0[a].pid && table.procs@[b].pid == t0[b].pid);
            } else if a < t0.len() {
                assert(table.procs@[a].pid == t0[a].pid);
                assert(!old(table).has_pid(new_pid));
                assert(t0[a].pid != new_pid);
            } else if b < t0.len() {
                assert(table.procs@[b].pid == t0[b].pid);
                assert(t0[b].pid != new_pid);
            }
        }
    }
    new_pid as isize
}

/// What a parent records of its child `c` once process `pid` exited with
/// `code`: the record of `pid` turns into a zombie carrying the code.
pub open spec fn child_after_exit(c: ChildInfo, pid: usize, code: i32) -> ChildInfo {
    if c.pid == pid {
        ChildInfo { pid: c.pid, is_zombie: true, stopped: false, exit_code: code }
    } else {
        c
    }
}

/// `q` is process `p` after process `e` exited with `code` and handed its
/// children to the process `init_pid` (which `p` is when `is_init`; `p`
/// is `e` itself when `is_exiting`): `e`'s parent records it as a zombie,
/// `init_pid` adopts `e`'s children, which now name it as their parent,
/// and `e` is left with no children.
pub open spec fn proc_after_exit(
    p: Process,
    q: Process,
    e: Process,
    init_pid: usize,
    is_init: bool,
    is_exiting: bool,
    code: i32,
) -> bool {
    let marked = if e.parent == Some(p.pid) {
        p.children@.map_values(|c: ChildInfo| child_after_exit(c, e.pid, code))
    } else {
        p.children@
    };
    &&& q.children@ == (if is_exiting { Seq::empty() } else if is_init { marked + e.children@ } else { marked })
    &&& q.parent == (if p.parent == Some(e.pid) { Some(init_pid) } else { p.parent })
    &&& q.pid == p.pid
    &&& q.pgid == p.pgid
    &&& q.priority == p.priority
    &&& q.fd_table@ == p.fd_table@
    &&& q.cwd@ == p.cwd@
    &&& q.cwd_inode == p.cwd_inode
    &&& q.path_var@ == p.path_var@
    &&& q.sig_ignored == p.sig_ignored
    &&& q.sched == p.sched
}

/// An exited process is reaped with its exit code: when process `e`
/// exits with `code`, its parent `p` (whose children have distinct pids
/// and include `e` at index `k`) afterwards finds it, by `waitpid` for its
/// pid, as the zombie at index `k` carrying `code`, so `sys_waitpid`
/// stores that code and returns the pid.
pub proof fn lemma_exit_then_wait(p: Process, q: Process, e: Process, init_pid: usize, is_init: bool, code: i32, k: int)
    requires
        proc_after_exit(p, q, e, init_pid, is_init, false, code),
        e.parent == Some(p.pid),
        0 < e.pid <= isize::MAX,
        0 <= k < p.children@.len(),
        p.children@[k].pid == e.pid,
        forall|a: int, b: int|
            0 <= a < p.children@.len() && 0 <= b < p.children@.len() && a != b ==> (#[trigger] p.children@[a]).pid
                != (#[trigger] p.children@[b]).pid,
    ensures
        wait_target_spec(q.children@, e.pid as isize, 0) == WaitTarget::Zombie(k as usize),
        q.children@[k].exit_code == code,
{
    let cs = q.children@;
    let pid = e.pid as isize;
    let marked = p.children@.map_values(|c: ChildInfo| child_after_exit(c, e.pid, code));
    assert(marked.len() == p.children@.len());
    assert forall|j: int| 0 <= j < marked.len() implies #[trigger] cs[j] == marked[j] by {
        if is_init {
            assert(cs == marked + e.children@);
        }
    }
    assert(cs[k].is_zombie && wait_matches(pid, cs[k]));
    assert forall|j: int| 0 <= j < k implies !(wait_matches(pid, #[trigger] cs[j]) && cs[j].is_zombie) by {
        assert(cs[j] == marked[j]);
        assert(p.children@[j].pid != e.pid);
    }
    let f = first_zombie(cs, pid);
    assert(0 <= f < cs.len() && wait_matches(pid, cs[f]) && cs[f].is_zombie);
    if f < k {
        assert(!(wait_matches(pid, cs[f]) && cs[f].is_zombie));
    }
    assert(f == k);
    assert(p.children@.len() == p.children.len());
    assert(0usize & 1usize == 0usize) by (bit_vector);
}

/// The process records of `exit` of process `cur` with `code`: its parent
/// records it as a zombie with the code (for `waitpid`), and its children
/// pass to the process `init` (the first user process, which cannot
/// exit), in their order after `init`'s own.
pub fn sys_exit(table: &mut ProcessTable, cur: usize, init: usize, code: i32)
    requires
        old(table).wf(),
        cur < old(table).procs@.len(),
        init < old(table).procs@.len(),
        cur != init,
        old(table).procs@[init as int].children@.len() + old(table).procs@[cur as int].children@.len() <= usize::MAX,
    ensures
        final(table).wf(),
        final(table).procs@.len() == old(table).procs@.len(),
        forall|j: int| 0 <= j < old(table).procs@.len() ==> proc_after_exit(
            old(table).procs@[j],
            #[trigger] final(table).procs@[j],
            old(table).procs@[cur as int],
            old(table).procs@[init as int].pid,
            j == init,
            j == cur,
            code,
        ),
{
    let ghost t0 = table.procs@;
    let e_pid = table.procs[cur].pid;
    let e_parent = table.procs[cur].parent;
    let init_pid = table.procs[init].pid;
    let mut moved: Vec<ChildInfo> = Vec::new();
    let mut k: usize = 0;
    while k < table.procs[cur].children.len()
        invariant
            table.procs@ == t0,
            cur < t0.len(),
            k <= t0[cur as int].children@.len(),
            moved@ == t0[cur as int].children@.take(k as int),
        decreases t0[cur as int].children@.len() - k,
    {
        moved.push(table.procs[cur].children[k]);
        assert(moved@ =~= t0[cur as int].children@.take(k + 1));
        k = k + 1;
    }
    assert(moved@ =~= t0[cur as int].children@);
    let mut j: usize = 0;
    while j < table.procs.len()
        invariant
            table.procs@.len() == t0.len(),
            cur < t0.len(),
            init < t0.len(),
            cur != init,
            e_pid == t0[cur as int].pid,
            e_parent == t0[cur as int].parent,
            init_pid == t0[init as int].pid,
            j <= t0.len(),
            forall|i: int| 0 <= i < j ==> proc_after_exit(t0[i], #[trigger] table.procs@[i], t0[cur as int], init_pid,
                false, false, code),
            forall|i: int| j <= i < t0.len() ==> #[trigger] table.procs@[i] == t0[i],
        decreases t0.len() - j,
    {
        let ghost pj = table.procs@[j as int];
        let ghost before = table.procs@;
        if e_parent == Some(table.procs[j].pid) {
            let mut c: usize = 0;
            while c < table.procs[j].children.len()
                invariant
                    table.procs@.len() == t0.len(),
                    j < t0.len(),
                    pj == t0[j as int],
                    c <= pj.children@.len(),
                    table.procs@[j as int].children@.len() == pj.children@.len(),
                    forall|i: int| 0 <= i < c ==> #[trigger] table.procs@[j as int].children@[i] == child_after_exit(
                        pj.children@[i], e_pid, code),
                    forall|i: int| c <= i < pj.children@.len() ==> #[trigger] table.procs@[j as int].children@[i]
                        == pj.children@[i],
                    before.len() == t0.len(),
                    forall|i: int| 0 <= i < t0.len() && i != j ==> #[trigger] table.procs@[i] == before[i],
                    table.procs@[j as int].pid == pj.pid,
                    table.procs@[j as int].parent == pj.parent,
                    table.procs@[j as int].pgid == pj.pgid,
                    table.procs@[j as int].priority == pj.priority,
                    table.procs@[j as int].fd_table@ == pj.fd_table@,
                    table.procs@[j as int].cwd@ == pj.cwd@,
                    table.procs@[j as int].cwd_inode == pj.cwd_inode,
                    table.procs@[j as int].path_var@ == pj.path_var@,
                    table.procs@[j as int].sig_ignored == pj.sig_ignored,
                    table.procs@[j as int].sched == pj.sched,
                decreases pj.children@.len() - c,
            {
                let ch = table.procs[j].children[c];
                if ch.pid == e_pid {
                    table.procs[j].children.set(c, ChildInfo { pid: ch.pid, is_zombie: true, stopped: false, exit_code: code });
                }
                c = c + 1;
            }
        }
        if table.procs[j].parent == Some(e_pid) {
            table.procs[j].parent = Some(init_pid);
        }
        proof {
            let q = table.procs@[j as int];
            if e_parent == Some(pj.pid) {
                assert(q.children@ =~= pj.children@.map_values(|c: ChildInfo| child_after_exit(c, e_pid, code)));
            }
            assert(proc_after_exit(t0[j as int], q, t0[cur as int], init_pid, false, false, code));
            assert forall|i: int| 0 <= i < j implies proc_after_exit(t0[i], #[trigger] table.procs@[i], t0[cur as int],
                init_pid, false, false, code) by {
                assert(table.procs@[i] == before[i]);
            }
            assert forall|i: int| j + 1 <= i < t0.len() implies #[trigger] table.procs@[i] == t0[i] by {
                assert(table.procs@[i] == before[i]);
            }
        }
        j = j + 1;
    }
    let ghost t1 = table.procs@;
    table.procs[cur].children = Vec::new();
    table.procs[init].children.append(&mut moved);
    proof {
        assert forall|i: int| 0 <= i < t0.len() implies proc_after_exit(t0[i], #[trigger] table.procs@[i],
            t0[cur as int], init_pid, i == init, i == cur, code) by {
            assert(proc_after_exit(t0[i], t1[i], t0[cur as int], init_pid, false, false, code));
            if i == init {
                assert(table.procs@[i].children@ == t1[i].children@ + t0[cur as int].children@);
            } else if i == cur {
                assert(table.procs@[i].children@ =~= Seq::<ChildInfo>::empty());
            } else {
                assert(table.procs@[i] == t1[i]);
            }
        }
        assert forall|a: int, b: int|
            0 <= a < table.procs@.len() && 0 <= b < table.procs@.len() && a != b implies (#[trigger] table.procs@[a]).pid
            != (#[trigger] table.procs@[b]).pid by {
            assert(proc_after_exit(t0[a], table.procs@[a], t0[cur as int], init_pid, a == init, a == cur, code));
            assert(proc_after_exit(t0[b], table.procs@[b], t0[cur as int], init_pid, b == init, b == cur, code));
        }
    }
}

/// Byte offset of register `a0` (`x[10]`, where a system call's result is
/// returned) in a trap context, whose first field holds the 32 general
/// registers of 8 bytes each.
pub const TRAP_CX_A0_OFFSET: usize = 80;

/// The child's side of `fork`: its main thread, whose trap context is the
/// frame `trap_cx_ppn`, returns 0 from the call, so register `a0` of that
/// context is cleared and nothing else changes. `false`, with nothing
/// written, when the frame is not in `mem`.
pub fn fork_child_return(mem: &mut PhysMem, trap_cx_ppn: usize) -> (ok: bool)
    requires
        old(mem).wf(),
    ensures
        final(mem).base == old(mem).base,
        final(mem).bytes@.len() == old(mem).bytes@.len(),
        ok == old(mem).holds_frame(trap_cx_ppn as int),
        ok ==> final(mem).bytes@ == u64_stored(
            old(mem).bytes@,
            trap_cx_ppn * PAGE_SIZE + TRAP_CX_A0_OFFSET - old(mem).base,
            0,
        ),
        !ok ==> *final(mem) == *old(mem),
{
    let lo = match trap_cx_ppn.checked_mul(PAGE_SIZE) {
        Some(lo) => lo,
        None => return false,
    };
    if lo < mem.base || lo - mem.base > mem.bytes.len() || mem.bytes.len() - (lo - mem.base) < PAGE_SIZE {
        return false;
    }
    let ok = store_phys_u64(mem, lo + TRAP_CX_A0_OFFSET, 0);
    assert(ok);
    true
}

/// What a `kill` asks of the process manager.
#[derive(Copy, Clone, Debug, PartialEq, Eq, Structural)]
pub enum SignalAction {
    /// Resume the stopped process with this pid.
    ContinueProcess(usize),
    /// Resume the stopped processes of this group.
    ContinueGroup(usize),
    /// Post the signals to the process with this pid.
    Signal(usize, u32),
    /// Post the signals to every process of this group.
    SignalGroup(usize, u32),
}

/// The group that a negative `pid` names.
pub open spec fn group_of(pid: isize) -> usize {
    (-(pid as int)) as usize
}

fn negate_pid(pid: isize) -> (g: usize)
    requires
        pid < 0,
    ensures
        g == group_of(pid),
{
    if pid == isize::MIN {
        (isize::MAX as usize) + 1
    } else {
        (-pid) as usize
    }
}

/// What `kill(pid, signal)` by a process of group `current_pgid` does: the
/// result, and the action for the process manager.
pub open spec fn kill_spec(table: &ProcessTable, current_pgid: usize, pid: isize, signal: u32) -> (isize, Option<SignalAction>) {
    if !valid_signal(signal) {
        (-1isize, None)
    } else if signal == SIGCONT {
        if pid > 0 {
            if table.has_pid(pid as usize) { (0isize, Some(SignalAction::ContinueProcess(pid as usize))) } else { (-1isize, None) }
        } else if pid < 0 {
            (0isize, Some(SignalAction::ContinueGroup(group_of(pid))))
        } else {
            (0isize, Some(SignalAction::ContinueGroup(current_pgid)))
        }
    } else if pid > 0 {
        if table.has_pid(pid as usize) { (0isize, Some(SignalAction::Signal(pid as usize, signal))) } else { (-1isize, None) }
    } else if pid < 0 {
        (0isize, Some(SignalAction::SignalGroup(group_of(pid), signal)))
    } else {
        (0isize, Some(SignalAction::SignalGroup(current_pgid, signal)))
    }
}

/// Sends `signal` to the process `pid` (> 0), to the group `-pid` (< 0),
/// or to the caller's group (0). `SIGCONT` resumes instead of posting.
pub fn sys_kill(table: &ProcessTable, current_pgid: usize, pid: isize, signal: u32) -> (r: (isize, Option<SignalAction>))
    ensures
        r == kill_spec(table, current_pgid, pid, signal),
{
    let flag = match signal_from_bits(signal) {
        Some(flag) => flag,
        None => return (-1, None),
    };
    if flag == SIGCONT {
        if pid > 0 {
            match table.find(pid as usize) {
                Some(_) => (0, Some(SignalAction::ContinueProcess(pid as usize))),
                None => (-1, None),
            }
        } else if pid < 0 {
            (0, Some(SignalAction::ContinueGroup(negate_pid(pid))))
        } else {
            (0, Some(SignalAction::ContinueGroup(current_pgid)))
        }
    } else if pid > 0 {
        match table.find(pid as usize) {
            Some(_) => (0, Some(SignalAction::Signal(pid as usize, flag))),
            None => (-1, None),
        }
    } else if pid < 0 {
        (0, Some(SignalAction::SignalGroup(negate_pid(pid), flag)))
    } else {
        (0, Some(SignalAction::SignalGroup(current_pgid, flag)))
    }
}

/// Index of the process with pid `pid` in a table whose pids are distinct.
pub open spec fn index_of(table: &ProcessTable, pid: usize) -> int {
    choose|i: int| 0 <= i < table.procs@.len() && table.procs@[i].pid == pid
}

proof fn lemma_index_of(table: &ProcessTable, pid: usize, i: int)
    requires
        table.wf(),
        0 <= i < table.procs@.len(),
        table.procs@[i].pid == pid,
    ensures
        index_of(table, pid) == i,
{
    let j = index_of(table, pid);
    assert(0 <= j < table.procs@.len() && table.procs@[j].pid == pid);
    if j != i {
        assert(table.procs@[i].pid != table.procs@[j].pid);
    }
}

/// `q` is `p` with process group `g`.
pub open spec fn with_pgid(p: Process, q: Process, g: usize) -> bool {
    &&& q.pgid == g
    &&& q.pid == p.pid
    &&& q.parent == p.parent
    &&& q.priority == p.priority
    &&& q.fd_table@ == p.fd_table@
    &&& q.cwd@ == p.cwd@
    &&& q.cwd_inode == p.cwd_inode
    &&& q.sched == p.sched
    &&& q.path_var@ == p.path_var@
    &&& q.sig_ignored == p.sig_ignored
    &&& q.children@ == p.children@
}

/// Every process of `t1` but the one at `i` is as in `t0`.
pub open spec fn others_unchanged(t0: Seq<Process>, t1: Seq<Process>, i: int) -> bool {
    &&& t1.len() == t0.len()
    &&& forall|j: int| 0 <= j < t0.len() && j != i ==> t1[j] == t0[j]
}

/// Moves process `pid` (0: the caller, at index `cur`) into group `pgid`
/// (0: a group of its own). Only the caller itself or one of its children
/// may be moved. 0, or -1 when there is no such process or it may not be moved.
pub fn sys_setpgid(table: &mut ProcessTable, cur: usize, pid: usize, pgid: usize) -> (r: isize)
    requires
        old(table).wf(),
        cur < old(table).procs@.len(),
    ensures
        final(table).wf(),
        ({
            let cur_pid = old(table).procs@[cur as int].pid;
            let target = if pid == 0 { cur_pid } else { pid };
            let i = index_of(old(table), target);
            if old(table).has_pid(target) && (target == cur_pid || old(table).procs@[i].parent == Some(cur_pid)) {
                &&& r == 0
                &&& others_unchanged(old(table).procs@, final(table).procs@, i)
                &&& with_pgid(old(table).procs@[i], final(table).procs@[i], if pgid == 0 { target } else { pgid })
            } else {
                r == -1 && final(table).procs@ == old(table).procs@
            }
        }),
{
    let cur_pid = table.procs[cur].pid;
    let target = if pid == 0 { cur_pid } else { pid };
    match table.find(target) {
        Some(i) => {
            proof {
                lemma_index_of(&*table, target, i as int);
            }
            let is_self = target == cur_pid;
            let is_child = match table.procs[i].parent {
                Some(pp) => pp == cur_pid,
                None => false,
            };
            if !is_self && !is_child {
                return -1;
            }
            let g = if pgid == 0 { target } else { pgid };
            let ghost t0 = table.procs@;
            table.procs[i].pgid = g;
            proof {
                assert forall|a: int, b: int|
                    0 <= a < table.procs@.len() && 0 <= b < table.procs@.len() && a != b implies (#[trigger] table.procs@[a]).pid
                        != (#[trigger] table.procs@[b]).pid by {
                    assert(t0[a].pid != t0[b].pid);
                }
            }
            0
        },
        None => -1,
    }
}

/// The process a priority call names: the caller (index `cur`) for pid 0.
pub open spec fn resolve_spec(table: &ProcessTable, cur: usize, pid: usize) -> Option<int> {
    if pid == 0 {
        Some(cur as int)
    } else if table.has_pid(pid) {
        Some(index_of(table, pid))
    } else {
        None
    }
}

fn resolve_process(table: &ProcessTable, cur: usize, pid: usize) -> (r: Option<usize>)
    requires
        table.wf(),
        cur < table.procs@.len(),
    ensures
        match r {
            Some(i) => resolve_spec(table, cur, pid) == Some(i as int) && i < table.procs@.len(),
            None => resolve_spec(table, cur, pid).is_none(),
        },
{
    if pid == 0 {
        Some(cur)
    } else {
        let r = table.find(pid);
        proof {
            if let Some(i) = r {
                lemma_index_of(table, pid, i as int);
            }
        }
        r
    }
}

/// What `set_priority(pid, priority)` called by process `cur` returns
/// (`r`) and leaves (`t1`) of the table `t0`: -2 for a priority out of
/// range, -1 when no process is named, else 0 with the priority of the
/// named process replaced (one without tasks keeps none).
pub open spec fn priority_set(t0: ProcessTable, t1: ProcessTable, cur: usize, pid: usize, priority: usize, r: isize) -> bool {
    if !(MIN_PRIORITY <= priority <= MAX_PRIORITY) {
        r == -2 && t1.procs@ == t0.procs@
    } else {
        match resolve_spec(&t0, cur, pid) {
            None => r == -1 && t1.procs@ == t0.procs@,
            Some(i) => {
                let p = t0.procs@[i];
                let q = t1.procs@[i];
                &&& r == 0
                &&& others_unchanged(t0.procs@, t1.procs@, i)
                &&& q.priority == (if p.priority.is_some() { Some(priority) } else { None })
                &&& q.sched == (if p.priority.is_some() {
                    SchedInfo { base_priority: priority, effective_priority: priority, ..p.sched }
                } else {
                    p.sched
                })
                &&& q.pid == p.pid && q.parent == p.parent && q.pgid == p.pgid
                &&& q.fd_table@ == p.fd_table@ && q.cwd@ == p.cwd@ && q.cwd_inode == p.cwd_inode
                &&& q.path_var@ == p.path_var@ && q.sig_ignored == p.sig_ignored && q.children@ == p.children@
            },
        }
    }
}

/// What `get_priority(pid)` called by process `cur` returns.
pub open spec fn priority_get(t: ProcessTable, cur: usize, pid: usize) -> isize {
    match resolve_spec(&t, cur, pid) {
        None => -1isize,
        Some(i) => match t.procs@[i].priority {
            Some(p) => p as isize,
            None => -1isize,
        },
    }
}

/// A priority that was set is the one read back: once `set_priority`
/// has succeeded on a process that still has tasks, `get_priority` of the
/// same pid by the same caller gives that priority, and so does the base
/// priority of its statistics.
pub proof fn lemma_priority_set_then_get(t0: ProcessTable, t1: ProcessTable, cur: usize, pid: usize, priority: usize)
    requires
        t0.wf(),
        t1.wf(),
        cur < t0.procs@.len(),
        priority_set(t0, t1, cur, pid, priority, 0),
        resolve_spec(&t0, cur, pid) matches Some(i) && t0.procs@[i].priority.is_some(),
    ensures
        priority_get(t1, cur, pid) == priority as isize,
        stats_of(t1.procs@[resolve_spec(&t1, cur, pid).unwrap()]).base_priority == priority,
{
    let i = resolve_spec(&t0, cur, pid).unwrap();
    if pid != 0 {
        assert(t1.procs@[i].pid == pid);
        assert(t1.has_pid(pid));
        lemma_index_of(&t1, pid, i);
    }
}

/// Sets the priority of process `pid` (0: the caller): 0, -2 when the
/// priority is out of range, -1 when there is no such process.
pub fn sys_set_priority(table: &mut ProcessTable, cur: usize, pid: usize, priority: usize) -> (r: isize)
    requires
        old(table).wf(),
        cur < old(table).procs@.len(),
    ensures
        final(table).wf(),
        priority_set(*old(table), *final(table), cur, pid, priority, r),
{
    if !(MIN_PRIORITY <= priority && priority <= MAX_PRIORITY) {
        return -2;
    }
    let i = match resolve_process(&*table, cur, pid) {
        Some(i) => i,
        None => return -1,
    };
    let ghost t0 = table.procs@;
    if table.procs[i].priority.is_some() {
        table.procs[i].priority = Some(priority);
        table.procs[i].sched.set_base_priority(priority);
    }
    proof {
        assert forall|a: int, b: int|
            0 <= a < table.procs@.len() && 0 <= b < table.procs@.len() && a != b implies (#[trigger] table.procs@[a]).pid
                != (#[trigger] table.procs@[b]).pid by {
            assert(t0[a].pid != t0[b].pid);
        }
    }
    0
}

/// The priority of process `pid` (0: the caller), or -1 when there is no
/// such process or it has no task left.
pub fn sys_get_priority(table: &ProcessTable, cur: usize, pid: usize) -> (r: isize)
    requires
        table.wf(),
        cur < table.procs@.len(),
    ensures
        r == priority_get(*table, cur, pid),
{
    let i = match resolve_process(table, cur, pid) {
        Some(i) => i,
        None => return -1,
    };
    match table.procs[i].priority {
        Some(p) => p as isize,
        None => -1,
    }
}

/// A page whose entry is valid and writable.
pub open spec fn writable_page(pt: &PageTable, vpn: usize) -> bool {
    match pt.spec_translate(vpn) {
        Some(e) => e.has_flag(FLAG_V) && e.has_flag(FLAG_W),
        None => false,
    }
}

/// The user range `[start, start + len)` is non-empty, below the user
/// limit, not at address 0, and every page of it is writable.
pub open spec fn range_writable(pt: &PageTable, start: u64, len: u64) -> bool {
    &&& start != 0
    &&& len != 0
    &&& start < USER_VA_LIMIT
    &&& start + len - 1 < USER_VA_LIMIT
    &&& forall|vpn: usize| start / 4096 <= vpn <= (start + len - 1) / 4096 ==> #[trigger] writable_page(pt, vpn)
}

/// Whether the user may have the kernel write `len` bytes at `start`.
pub fn user_range_writable(pt: &PageTable, start: u64, len: u64) -> (b: bool)
    ensures
        b == range_writable(pt, start, len),
{
    if start == 0 || len == 0 || start >= USER_VA_LIMIT {
        return false;
    }
    let end = match start.checked_add(len - 1) {
        Some(e) => e,
        None => return false,
    };
    if end >= USER_VA_LIMIT {
        return false;
    }
    let first: u64 = start / 4096;
    let last: u64 = end / 4096;
    let mut vpn: u64 = first;
    while vpn <= last
        invariant
            first <= vpn <= last + 1,
            last == end / 4096,
            end == start + len - 1,
            end < USER_VA_LIMIT,
            first == start / 4096,
            forall|v: usize| first <= v < vpn ==> #[trigger] writable_page(pt, v),
        decreases last + 1 - vpn,
    {
        let e = pt.translate(vpn as usize);
        let ok = match e {
            Some(pte) => pte.is_valid() && pte.writable(),
            None => false,
        };
        if !ok {
            assert(!writable_page(pt, vpn as usize));
            return false;
        }
        vpn = vpn + 1;
    }
    true
}

/// The scheduling statistics of a process, as `get_sched_stats` hands them
/// to the user.
#[derive(Copy, Clone, Debug, PartialEq, Eq, Structural)]
pub struct SchedStats {
    pub pid: usize,
    pub base_priority: usize,
    pub effective_priority: usize,
    pub runtime_ticks: usize,
    pub total_wait_ticks: usize,
    pub scheduled_count: usize,
}

/// The statistics of process `p`: its pid and the bookkeeping of its main thread.
pub open spec fn stats_of(p: Process) -> SchedStats {
    SchedStats {
        pid: p.pid,
        base_priority: p.sched.base_priority,
        effective_priority: p.sched.effective_priority,
        runtime_ticks: p.sched.runtime_ticks,
        total_wait_ticks: p.sched.total_wait_ticks,
        scheduled_count: p.sched.scheduled_count,
    }
}

/// What `get_sched_stats(pid, ptr)` called by process `cur` returns: -1
/// when there is no such process, -2 when the `size` bytes at `ptr` are not
/// writable, else 0.
pub open spec fn sched_stats_result(table: ProcessTable, cur: usize, pid: usize, pt: PageTable, ptr: u64, size: u64) -> isize {
    if resolve_spec(&table, cur, pid).is_none() {
        -1isize
    } else if !range_writable(&pt, ptr, size) {
        -2isize
    } else {
        0isize
    }
}

/// Stores the statistics of process `pid` (0: the caller) in `stats`, the
/// `size` bytes at `ptr` of the address space `pt`: 0 with the target's
/// statistics stored; -1 when there is no such process, -2 when the range
/// is not writable, and then nothing is stored.
pub fn sys_get_sched_stats(
    table: &ProcessTable,
    cur: usize,
    pid: usize,
    pt: &PageTable,
    ptr: u64,
    size: u64,
    stats: &mut SchedStats,
) -> (r: isize)
    requires
        table.wf(),
        cur < table.procs@.len(),
    ensures
        r == sched_stats_result(*table, cur, pid, *pt, ptr, size),
        r == 0 ==> *final(stats) == stats_of(table.procs@[resolve_spec(table, cur, pid).unwrap()]),
        r != 0 ==> *final(stats) == *old(stats),
{
    match resolve_process(table, cur, pid) {
        None => -1,
        Some(i) => {
            if !user_range_writable(pt, ptr, size) {
                return -2;
            }
            let p = &table.procs[i];
            *stats = SchedStats {
                pid: p.pid,
                base_priority: p.sched.base_priority,
                effective_priority: p.sched.effective_priority,
                runtime_ticks: p.sched.runtime_ticks,
                total_wait_ticks: p.sched.total_wait_ticks,
                scheduled_count: p.sched.scheduled_count,
            };
            0
        },
    }
}

/// Makes `pgrp` the terminal's foreground group: 0, or -1 when `pgrp` is 0
/// or no live process has that pid.
pub fn sys_tcsetpgrp(table: &ProcessTable, tty: &mut TtyInner, fd: usize, pgrp: usize) -> (r: isize)
    ensures
        pgrp != 0 && table.has_pid(pgrp) ==> r == 0 && final(tty)@ == (TtyState { fg_pgrp: pgrp, ..old(tty)@ }),
        !(pgrp != 0 && table.has_pid(pgrp)) ==> r == -1 && final(tty)@ == old(tty)@,
{
    if pgrp == 0 {
        return -1;
    }
    match table.find(pgrp) {
        None => -1,
        Some(_) => {
            tty.set_fg_pgrp(pgrp);
            0
        },
    }
}

pub fn sys_tcgetpgrp(tty: &TtyInner, fd: usize) -> (r: isize)
    ensures
        r == tty.fg_pgrp as isize,
{
    tty.get_fg_pgrp() as isize
}

/// Sets what happens to `signal`: act 0 restores the default, act 1
/// ignores it. 0, or -1 for an unknown signal or act.
pub fn sys_sigaction(proc: &mut Process, signal: u32, act: usize) -> (r: isize)
    ensures
        valid_signal(signal) && act == 0 ==> r == 0 && final(proc).sig_ignored == old(proc).sig_ignored & !signal,
        valid_signal(signal) && act == 1 ==> r == 0 && final(proc).sig_ignored == old(proc).sig_ignored | signal,
        !(valid_signal(signal) && (act == 0 || act == 1)) ==> r == -1 && final(proc).sig_ignored == old(proc).sig_ignored,
        final(proc).fd_table@ == old(proc).fd_table@,
        final(proc).pid == old(proc).pid,
        final(proc).parent == old(proc).parent,
        final(proc).pgid == old(proc).pgid,
        final(proc).priority == old(proc).priority,
        final(proc).cwd@ == old(proc).cwd@,
        final(proc).cwd_inode == old(proc).cwd_inode,
        final(proc).sched == old(proc).sched,
        final(proc).path_var@ == old(proc).path_var@,
        final(proc).children@ == old(proc).children@,
{
    let flag = match signal_from_bits(signal) {
        Some(flag) => flag,
        None => return -1,
    };
    if act == 0 {
        proc.sig_ignored = proc.sig_ignored & !flag;
        0
    } else if act == 1 {
        proc.sig_ignored = proc.sig_ignored | flag;
        0
    } else {
        -1
    }
}

} // verus!
