//! Processes as the system calls see them: open files, working directory,
//! process group, signals, children, and the table of live processes.

use vstd::prelude::*;
use crate::sched::SchedInfo;

verus! {

pub const SIGINT: u32 = 0x4;
pub const SIGILL: u32 = 0x10;
pub const SIGABRT: u32 = 0x40;
pub const SIGFPE: u32 = 0x100;
pub const SIGSEGV: u32 = 0x800;
pub const SIGTSTP: u32 = 0x10_0000;
pub const SIGCONT: u32 = 0x20_0000;
/// Every defined signal bit.
pub const SIGNAL_MASK: u32 = SIGINT | SIGILL | SIGABRT | SIGFPE | SIGSEGV | SIGTSTP | SIGCONT;

/// `bits` is a set of defined signals.
pub open spec fn valid_signal(bits: u32) -> bool {
    bits & !SIGNAL_MASK == 0
}

/// The signal set `bits`, when every bit of it is a defined signal.
pub fn signal_from_bits(bits: u32) -> (s: Option<u32>)
    ensures
        s == (if valid_signal(bits) { Some(bits) } else { None }),
{
    if bits & !SIGNAL_MASK == 0 {
        Some(bits)
    } else {
        None
    }
}

/// An open file as a process's descriptor table holds it.
#[derive(Copy, Clone, Debug, PartialEq, Eq, Structural)]
pub struct FileDesc {
    /// Which open file this is.
    pub id: u64,
    pub readable: bool,
    pub writable: bool,
}

/// What a parent knows of one of its children.
#[derive(Copy, Clone, Debug, PartialEq, Eq, Structural)]
pub struct ChildInfo {
    pub pid: usize,
    pub is_zombie: bool,
    pub stopped: bool,
    pub exit_code: i32,
}

pub struct Process {
    pub pid: usize,
    /// Pid of the parent, while it lives.
    pub parent: Option<usize>,
    pub pgid: usize,
    /// Base priority of the process's tasks; `None` once it has none.
    pub priority: Option<usize>,
    pub fd_table: Vec<Option<FileDesc>>,
    /// Path of the working directory.
    pub cwd: Vec<u8>,
    /// Inode of the working directory.
    pub cwd_inode: u32,
    /// The `PATH` variable: directories separated by `:`.
    pub path_var: Vec<u8>,
    /// Signals the process ignores.
    pub sig_ignored: u32,
    pub children: Vec<ChildInfo>,
    /// The scheduling bookkeeping of the process's main thread.
    pub sched: SchedInfo,
}

/// Index of the first free descriptor of `t`, or its length when none is free.
pub open spec fn first_free_fd(t: Seq<Option<FileDesc>>) -> int {
    if exists|i: int| 0 <= i < t.len() && t[i].is_none() {
        choose|i: int| 0 <= i < t.len() && t[i].is_none() && forall|j: int| 0 <= j < i ==> t[j].is_some()
    } else {
        t.len() as int
    }
}

impl Process {
    /// The lowest free descriptor, the table grown by one slot when none is free.
    pub fn alloc_fd(&mut self) -> (fd: usize)
        requires
            old(self).fd_table@.len() < usize::MAX,
        ensures
            fd == first_free_fd(old(self).fd_table@),
            fd <= old(self).fd_table@.len(),
            fd < final(self).fd_table@.len(),
            final(self).fd_table@[fd as int].is_none(),
            fd < old(self).fd_table@.len() ==> final(self).fd_table@ == old(self).fd_table@,
            fd == old(self).fd_table@.len() ==> final(self).fd_table@ == old(self).fd_table@.push(None),
            final(self).pid == old(self).pid,
            final(self).parent == old(self).parent,
            final(self).pgid == old(self).pgid,
            final(self).priority == old(self).priority,
            final(self).cwd@ == old(self).cwd@,
            final(self).cwd_inode == old(self).cwd_inode,
            final(self).sched == old(self).sched,
            final(self).path_var@ == old(self).path_var@,
            final(self).sig_ignored == old(self).sig_ignored,
            final(self).children@ == old(self).children@,
    {
        let mut i: usize = 0;
        while i < self.fd_table.len()
            invariant
                i <= self.fd_table@.len(),
                forall|j: int| 0 <= j < i ==> self.fd_table@[j].is_some(),
            decreases self.fd_table@.len() - i,
        {
            if self.fd_table[i].is_none() {
                proof {
                    let t = self.fd_table@;
                    assert(exists|k: int| 0 <= k < t.len() && t[k].is_none());
                    let c = first_free_fd(t);
                    assert(0 <= c < t.len() && t[c].is_none() && forall|j: int| 0 <= j < c ==> t[j].is_some());
                    if c < i {
                    } else if c > i {
                        assert(t[i as int].is_some());
                    }
                }
                return i;
            }
            i = i + 1;
        }
        self.fd_table.push(None);
        i
    }
}

/// The processes that are alive, by pid.
pub struct ProcessTable {
    pub procs: Vec<Process>,
}

impl ProcessTable {
    /// No two processes share a pid.
    pub open spec fn wf(&self) -> bool {
        forall|i: int, j: int|
            0 <= i < self.procs@.len() && 0 <= j < self.procs@.len() && i != j ==> (#[trigger] self.procs@[i]).pid
                != (#[trigger] self.procs@[j]).pid
    }

    /// Some live process has pid `pid`.
    pub open spec fn has_pid(&self, pid: usize) -> bool {
        exists|i: int| 0 <= i < self.procs@.len() && (#[trigger] self.procs@[i]).pid == pid
    }

    /// Index of the process with pid `pid`.
    pub fn find(&self, pid: usize) -> (r: Option<usize>)
        ensures
            match r {
                Some(i) => i < self.procs@.len() && self.procs@[i as int].pid == pid,
                None => !self.has_pid(pid),
            },
    {
        let mut i: usize = 0;
        while i < self.procs.len()
            invariant
                i <= self.procs@.len(),
                forall|j: int| 0 <= j < i ==> (#[trigger] self.procs@[j]).pid != pid,
            decreases self.procs@.len() - i,
        {
            if self.procs[i].pid == pid {
                return Some(i);
            }
            i = i + 1;
        }
        None
    }

    /// The process with pid `pid`, if any.
    pub fn pid2process(&self, pid: usize) -> (r: Option<&Process>)
        ensures
            match r {
                Some(p) => self.has_pid(pid) && p.pid == pid && self.procs@.contains(*p),
                None => !self.has_pid(pid),
            },
    {
        match self.find(pid) {
            Some(i) => Some(&self.procs[i]),
            None => None,
        }
    }

    /// Records process `p` under its pid, in place of a process recorded
    /// under the same pid.
    pub fn insert_into_pid2process(&mut self, p: Process)
        requires
            old(self).wf(),
        ensures
            final(self).wf(),
            final(self).has_pid(p.pid),
            match old(self).find_spec(p.pid) {
                Some(i) => final(self).procs@ == old(self).procs@.update(i, p),
                None => final(self).procs@ == old(self).procs@.push(p),
            },
    {
        match self.find(p.pid) {
            Some(i) => {
                proof {
                    self.lemma_find_spec(p.pid, i as int);
                }
                let pid = p.pid;
                self.procs.set(i, p);
                assert(self.procs@[i as int].pid == pid);
            },
            None => {
                let ghost n = self.procs@.len();
                self.procs.push(p);
                assert(self.procs@[n as int] == p);
            },
        }
    }

    /// Forgets the process with pid `pid`, which must be recorded.
    pub fn remove_from_pid2process(&mut self, pid: usize)
        requires
            old(self).wf(),
            old(self).has_pid(pid),
        ensures
            final(self).wf(),
            !final(self).has_pid(pid),
            old(self).find_spec(pid) is Some,
            final(self).procs@ == old(self).procs@.remove(old(self).find_spec(pid).unwrap()),
    {
        let i = self.find(pid).unwrap();
        proof {
            self.lemma_find_spec(pid, i as int);
        }
        let ghost before = self.procs@;
        self.procs.remove(i);
        proof {
            assert forall|a: int, b: int|
                0 <= a < self.procs@.len() && 0 <= b < self.procs@.len() && a != b implies (#[trigger] self.procs@[a]).pid
                != (#[trigger] self.procs@[b]).pid by {
                let oa = if a < i { a } else { a + 1 };
                let ob = if b < i { b } else { b + 1 };
                assert(self.procs@[a] == before[oa] && self.procs@[b] == before[ob]);
            }
            if self.has_pid(pid) {
                let k = choose|k: int| 0 <= k < self.procs@.len() && (#[trigger] self.procs@[k]).pid == pid;
                let ok = if k < i { k } else { k + 1 };
                assert(self.procs@[k] == before[ok]);
                assert(before[ok].pid == before[i as int].pid);
            }
        }
    }

    /// Index of the process with pid `pid`, if any.
    pub open spec fn find_spec(&self, pid: usize) -> Option<int> {
        if self.has_pid(pid) {
            Some(choose|i: int| 0 <= i < self.procs@.len() && (#[trigger] self.procs@[i]).pid == pid)
        } else {
            None
        }
    }

    proof fn lemma_find_spec(&self, pid: usize, i: int)
        requires
            self.wf(),
            0 <= i < self.procs@.len(),
            self.procs@[i].pid == pid,
        ensures
            self.find_spec(pid) == Some(i),
    {
        assert(self.has_pid(pid));
        let k = choose|k: int| 0 <= k < self.procs@.len() && (#[trigger] self.procs@[k]).pid == pid;
        if k != i {
            assert(self.procs@[k].pid != self.procs@[i].pid);
        }
    }
}

/// The lowest free descriptor is free, and every descriptor below it is open.
pub proof fn lemma_first_free_fd(t: Seq<Option<FileDesc>>)
    ensures
        0 <= first_free_fd(t) <= t.len(),
        first_free_fd(t) < t.len() ==> t[first_free_fd(t)].is_none(),
        forall|j: int| 0 <= j < first_free_fd(t) ==> t[j].is_some(),
{
    if exists|i: int| 0 <= i < t.len() && t[i].is_none() {
        let w = choose|i: int| 0 <= i < t.len() && t[i].is_none();
        lemma_least_free(t, w);
    }
}

proof fn lemma_least_free(t: Seq<Option<FileDesc>>, w: int)
    requires
        0 <= w < t.len(),
        t[w].is_none(),
    ensures
        exists|i: int| 0 <= i < t.len() && t[i].is_none() && forall|j: int| 0 <= j < i ==> t[j].is_some(),
    decreases w,
{
    if exists|j: int| 0 <= j < w && t[j].is_none() {
        let j = choose|j: int| 0 <= j < w && t[j].is_none();
        lemma_least_free(t, j);
    } else {
        assert(forall|j: int| 0 <= j < w ==> t[j].is_some());
    }
}

/// Closing descriptor `k` makes the next descriptor handed out `k` or a
/// lower one, and exactly `k` when every descriptor below `k` is open: the
/// shell's `close(0); dup(fd)` moves `fd` to descriptor 0.
pub proof fn lemma_close_then_alloc(t: Seq<Option<FileDesc>>, k: int)
    requires
        0 <= k < t.len(),
    ensures
        first_free_fd(t.update(k, None)) <= k,
        (forall|j: int| 0 <= j < k ==> t[j].is_some()) ==> first_free_fd(t.update(k, None)) == k,
{
    let u = t.update(k, None);
    lemma_first_free_fd(u);
    assert(u[k].is_none());
    if first_free_fd(u) > k {
        assert(u[k].is_some());
    }
    if forall|j: int| 0 <= j < k ==> t[j].is_some() {
        if first_free_fd(u) < k {
            assert(u[first_free_fd(u)].is_none());
            assert(t[first_free_fd(u)].is_some());
        }
    }
}

} // verus!
