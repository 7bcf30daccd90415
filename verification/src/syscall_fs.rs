//! File-system system calls: the descriptor table, the working directory
//! and its paths, directory listings, and the `PATH` variable.

use vstd::prelude::*;
use crate::process::{Process, FileDesc, first_free_fd};
use crate::vfs::{EasyFileSystem, Inode, lookup_spec, valid_name, is_reserved_name, NAME_LENGTH_LIMIT};
use crate::fs_inode::{
    open_file_in, open_target, opened_inodes, open_creates_in, OSInode, buf_in_mem, left_from, file_bytes,
    store_to_user,
};
use crate::frame_allocator::{StackFrameAllocator, PAGE_SIZE};
use crate::memory_set::{MemorySet, alloc_fits, va_limit, privatizable, private_writable, spec_floor, spec_ceil, spec_va};
use crate::phys_mem::{
    PhysMem, covers_alloc, write_user_u64, u64_slot, u64_stored, u64_byte, user_byte, only_fresh_changed,
    user_word_slot_ok,
};
use crate::page_table::{PageTable, VPN_LIMIT};
use crate::user_buffer::{
    UserBuffer, BufChunk, translated_byte_buffer, chunks_of, buf_addrs, stored, gathered, range_translates,
};
use crate::vfs::{with_data, written, with_entries, fresh_inode, placed, freed, first_free, entry_index, DiskInodeType, unlink_target, rename_ok};

verus! {

pub const SLASH: u8 = 0x2f;
pub const DOT: u8 = 0x2e;
pub const NEWLINE: u8 = 0x0a;

pub const O_WRONLY: u32 = 1;
pub const O_RDWR: u32 = 2;
pub const O_CREATE: u32 = 0x200;
pub const O_TRUNC: u32 = 0x400;
/// Every defined open flag.
pub const OPEN_FLAGS_MASK: u32 = O_WRONLY | O_RDWR | O_CREATE | O_TRUNC;

/// `flags` holds defined open flags only.
pub open spec fn valid_open_flags(flags: u32) -> bool {
    flags & !OPEN_FLAGS_MASK == 0
}

/// Whether a file opened with `flags` is readable and writable: read-only
/// without flags, write-only with `O_WRONLY`, else both.
pub fn read_write(flags: u32) -> (rw: (bool, bool))
    requires
        valid_open_flags(flags),
    ensures
        rw == (if flags == 0 { (true, false) } else if flags & O_WRONLY != 0 { (false, true) } else { (true, true) }),
{
    if flags == 0 {
        (true, false)
    } else if flags & O_WRONLY != 0 {
        (false, true)
    } else {
        (true, true)
    }
}

/// A path that starts at the root directory rather than the working one.
pub open spec fn is_absolute(path: Seq<u8>) -> bool {
    path.len() > 0 && path[0] == SLASH
}

pub fn starts_at_root(path: &[u8]) -> (b: bool)
    ensures
        b == is_absolute(path@),
{
    path.len() > 0 && path[0] == SLASH
}

/// The open descriptor `fd` of `t`, if any.
pub open spec fn open_fd(t: Seq<Option<FileDesc>>, fd: usize) -> Option<FileDesc> {
    if fd < t.len() { t[fd as int] } else { None }
}

/// The descriptor a write to `fd` goes to, or -1 when `fd` is not open for writing.
pub fn sys_write(proc: &Process, fd: usize) -> (r: Result<FileDesc, isize>)
    ensures
        r == (match open_fd(proc.fd_table@, fd) {
            Some(f) => if f.writable { Ok(f) } else { Err(-1isize) },
            None => Err(-1isize),
        }),
{
    if fd >= proc.fd_table.len() {
        return Err(-1);
    }
    match proc.fd_table[fd] {
        Some(f) => {
            if !f.writable {
                Err(-1)
            } else {
                Ok(f)
            }
        },
        None => Err(-1),
    }
}

/// The descriptor a read from `fd` goes to, or -1 when `fd` is not open for reading.
pub fn sys_read(proc: &Process, fd: usize) -> (r: Result<FileDesc, isize>)
    ensures
        r == (match open_fd(proc.fd_table@, fd) {
            Some(f) => if f.readable { Ok(f) } else { Err(-1isize) },
            None => Err(-1isize),
        }),
{
    if fd >= proc.fd_table.len() {
        return Err(-1);
    }
    match proc.fd_table[fd] {
        Some(f) => {
            if !f.readable {
                Err(-1)
            } else {
                Ok(f)
            }
        },
        None => Err(-1),
    }
}

/// The pieces of `[ptr, ptr + len)` in the address space `pt` lie in frames
/// that `mem` holds; `false` when one does not.
fn buffer_in_mem(pt: &PageTable, mem: &PhysMem, ptr: usize, len: usize) -> (r: Option<UserBuffer>)
    requires
        mem.wf(),
        ptr + len <= VPN_LIMIT * PAGE_SIZE,
        ptr + len <= usize::MAX,
        len > 0 ==> range_translates(*pt, ptr, len),
    ensures
        r.is_some() == buf_in_mem(chunks_of(*pt, ptr, len), *mem),
        r matches Some(b) ==> b.buffers@ == chunks_of(*pt, ptr, len),
        buf_addrs(chunks_of(*pt, ptr, len)).len() == len,
{
    let cs = translated_byte_buffer(pt, ptr, len);
    assert(cs@ =~= chunks_of(*pt, ptr, len));
    proof {
        crate::user_buffer::lemma_buf_addrs_len_pub(cs@);
    }
    let mut k: usize = 0;
    while k < cs.len()
        invariant
            mem.wf(),
            cs@ == chunks_of(*pt, ptr, len),
            buf_addrs(chunks_of(*pt, ptr, len)).len() == len,
            forall|j: int| 0 <= j < cs@.len() ==> (#[trigger] cs@[j]).start < cs@[j].end <= PAGE_SIZE,
            k <= cs@.len(),
            forall|j: int| 0 <= j < k ==> mem.holds_frame((#[trigger] cs@[j]).ppn as int),
        decreases cs@.len() - k,
    {
        if !mem.has_frame(cs[k].ppn) {
            return None;
        }
        k = k + 1;
    }
    Some(UserBuffer::new(cs))
}

/// What a read of `len` bytes from the open file `f0` into the user buffer
/// at `buf` left behind: the file `f1`, the page table `pt1` (`pt0`
/// before), the memory `mem1` (`mem0` before, with the frames of `a0`
/// allocated then and those of `a1` after) and the result `r`. The pages
/// of the range are private and writable when they could be made so; when
/// they could and lie in `mem1`, `r` is the number of bytes left in the
/// file from its offset, at most `len`, the offset moves past them, and
/// they stand at the buffer's addresses; otherwise `r` is -1 and the
/// offset stays. Besides those bytes, only frames newly allocated (the
/// private copies of shared pages) changed: no frame allocated before,
/// whichever address space holds it, changed otherwise.
pub open spec fn read_outcome(
    f0: OSInode,
    f1: OSInode,
    fs: EasyFileSystem,
    pt0: PageTable,
    pt1: PageTable,
    mem0: PhysMem,
    mem1: PhysMem,
    a0: StackFrameAllocator,
    a1: StackFrameAllocator,
    buf: usize,
    len: usize,
    r: isize,
) -> bool {
    let d = fs.data_of(f0.inode.inode_id);
    let o = f0.offset as int;
    let a = left_from(d, o);
    let ok = len == 0 || forall|v: usize| spec_floor(buf) <= v < spec_ceil((buf + len) as usize) ==> #[trigger] privatizable(pt0, v);
    let cs = chunks_of(pt1, buf, len);
    &&& f1.inode == f0.inode
    &&& f1.readable == f0.readable
    &&& f1.writable == f0.writable
    &&& ok && len > 0 ==> forall|v: usize| spec_floor(buf) <= v < spec_ceil((buf + len) as usize) ==> #[trigger] private_writable(pt1, v)
    &&& if ok && buf_in_mem(cs, mem1) {
        &&& r == (if a < len { a } else { len as int })
        &&& f1.offset == o + r
        &&& exists|before: Seq<u8>|
            #[trigger] only_fresh_changed(mem0.bytes@, before, mem0.base as int, a0, a1) && mem1.bytes@ == stored(
                before,
                mem1.base as int,
                buf_addrs(cs),
                file_bytes(d, o, r as int),
            )
    } else {
        &&& r == -1
        &&& f1.offset == f0.offset
        &&& only_fresh_changed(mem0.bytes@, mem1.bytes@, mem0.base as int, a0, a1)
    }
}

/// `read(fd, buf, len)` on the disk file `file` that the descriptor `fd`
/// holds (see `sys_read`): the pages of `[buf, buf + len)` are first made
/// private, so that a copy-on-write page gets a frame of its own and no
/// other address space sees the kernel's write; then the file is read into
/// them as `OSInode::read_to_user` does, and the count is returned. -1,
/// with the file untouched, when a page of the range cannot be made
/// private and writable or lies outside `mem`.
pub fn read_file_to_user(
    file: &mut OSInode,
    fs: &EasyFileSystem,
    ms: &mut MemorySet,
    alloc: &mut StackFrameAllocator,
    mem: &mut PhysMem,
    buf: usize,
    len: usize,
) -> (r: isize)
    requires
        old(ms).wf(),
        old(ms).frames_held(&*old(alloc)),
        alloc_fits(&*old(alloc)),
        old(mem).wf(),
        covers_alloc(*old(mem), *old(alloc)),
        buf + len < va_limit(),
        buf + len <= usize::MAX,
        len <= isize::MAX,
        (exists|v: usize| spec_floor(buf) <= v < spec_ceil((buf + len) as usize)
            && #[trigger] old(ms).page_needs_copy(*old(alloc), v)) ==> old(alloc).free_frames()
            >= spec_ceil((buf + len) as usize) - spec_floor(buf),
    ensures
        final(ms).wf(),
        final(ms).frames_held(&*final(alloc)),
        alloc_fits(&*final(alloc)),
        covers_alloc(*final(mem), *final(alloc)),
        final(mem).base == old(mem).base,
        final(mem).bytes@.len() == old(mem).bytes@.len(),
        read_outcome(*old(file), *final(file), *fs, old(ms).page_table, final(ms).page_table, *old(mem), *final(mem),
            *old(alloc), *final(alloc), buf, len, r),
{
    let ok = ms.ensure_private_range(buf, len, alloc, mem);
    proof {
        assert(((buf + len) as usize) as int == buf + len);
        assert(spec_va((buf + len) as usize) == (buf + len) as usize);
    }
    if !ok {
        return -1;
    }
    proof {
        if len > 0 {
            assert forall|v: usize| (buf as int) / (PAGE_SIZE as int) <= v <= (buf + len - 1) / (PAGE_SIZE as int) implies #[trigger] ms.page_table.spec_translate(v).is_some() by {
                assert(spec_floor(buf) <= v < spec_ceil((buf + len) as usize)) by (nonlinear_arith)
                    requires
                        (buf as int) / 4096 <= v <= (buf + len - 1) / 4096,
                        spec_floor(buf) == buf / 4096,
                        spec_ceil((buf + len) as usize) == (buf + len + 4095) / 4096,
                        len > 0,
                ;
                assert(private_writable(ms.page_table, v));
            }
        }
    }
    let ghost m1 = *mem;
    match buffer_in_mem(&ms.page_table, mem, buf, len) {
        None => -1,
        Some(ub) => {
            let n = file.read_to_user(fs, &ub, mem);
            proof {
                assert(mem.bytes@ == stored(m1.bytes@, m1.base as int, buf_addrs(ub.buffers@), file_bytes(
                    fs.data_of(file.inode.inode_id),
                    old(file).offset as int,
                    n as int,
                )));
            }
            n as isize
        },
    }
}

/// What a write of the `len` user bytes at `buf` (read through `pt` from
/// `mem`) to the open file `f0` left behind: the file `f1`, the file
/// system `fs1` (`fs0` before) and the result `r`. When the buffer lies in
/// `mem`, the bytes are written at the file's offset, which moves past
/// them, and `r` is `len`; otherwise `r` is -1 and nothing changes.
pub open spec fn write_outcome(
    f0: OSInode,
    f1: OSInode,
    fs0: EasyFileSystem,
    fs1: EasyFileSystem,
    pt: PageTable,
    mem: PhysMem,
    buf: usize,
    len: usize,
    r: isize,
) -> bool {
    let cs = chunks_of(pt, buf, len);
    &&& f1.inode == f0.inode
    &&& f1.readable == f0.readable
    &&& f1.writable == f0.writable
    &&& if buf_in_mem(cs, mem) {
        &&& r == len
        &&& f1.offset == f0.offset + len
        &&& fs1@ == fs0@.update(
            f0.inode.inode_id as int,
            Some(with_data(
                fs0.node(f0.inode.inode_id).unwrap(),
                written(fs0.data_of(f0.inode.inode_id), f0.offset as int, gathered(mem.bytes@, mem.base as int, buf_addrs(cs))),
            )),
        )
    } else {
        r == -1 && f1 == f0 && fs1@ == fs0@
    }
}

/// `write(fd, buf, len)` on the disk file `file` that the descriptor `fd`
/// holds (see `sys_write`): the bytes of `[buf, buf + len)`, read through
/// the page table, are written at the file's offset as
/// `OSInode::write_from_user` does, and their count is returned; -1, with
/// nothing written, when a page of the range lies outside `mem`.
pub fn write_file_from_user(
    file: &mut OSInode,
    fs: &mut EasyFileSystem,
    ms: &MemorySet,
    mem: &PhysMem,
    buf: usize,
    len: usize,
) -> (r: isize)
    requires
        mem.wf(),
        buf + len <= VPN_LIMIT * PAGE_SIZE,
        buf + len <= usize::MAX,
        len <= isize::MAX,
        len > 0 ==> range_translates(ms.page_table, buf, len),
        old(fs).node(old(file).inode.inode_id).is_some(),
        old(file).offset + len <= u32::MAX,
    ensures
        write_outcome(*old(file), *final(file), *old(fs), *final(fs), ms.page_table, *mem, buf, len, r),
{
    match buffer_in_mem(&ms.page_table, mem, buf, len) {
        None => -1,
        Some(ub) => {
            let n = file.write_from_user(fs, &ub, mem);
            n as isize
        },
    }
}

/// The open file that a read from (`write` false) or a write to (`write`
/// true) descriptor `fd` of table `t` goes to: the index the descriptor
/// holds into a list of `n` open files, when `fd` is open with that right
/// and the index is in the list.
pub open spec fn fd_target(t: Seq<Option<FileDesc>>, fd: usize, write: bool, n: int) -> Option<int> {
    match open_fd(t, fd) {
        Some(f) => if (if write { f.writable } else { f.readable }) && f.id < n {
            Some(f.id as int)
        } else {
            None
        },
        None => None,
    }
}

/// A copy of the open file `f`.
fn copy_open_file(f: &OSInode) -> (c: OSInode)
    ensures
        c == *f,
{
    OSInode { readable: f.readable, writable: f.writable, offset: f.offset, inode: f.inode }
}

/// `read(fd, buf, len)` of process `proc`, whose descriptors index the open
/// files `files`: -1, with nothing changed, when `fd` is not open for
/// reading or names no open file (see `sys_read`); otherwise that file is
/// read into the user buffer as `read_file_to_user` says, and no other
/// file changes.
pub fn read_fd(
    proc: &Process,
    files: &mut Vec<OSInode>,
    fs: &EasyFileSystem,
    ms: &mut MemorySet,
    alloc: &mut StackFrameAllocator,
    mem: &mut PhysMem,
    fd: usize,
    buf: usize,
    len: usize,
) -> (r: isize)
    requires
        old(ms).wf(),
        old(ms).frames_held(&*old(alloc)),
        alloc_fits(&*old(alloc)),
        old(mem).wf(),
        covers_alloc(*old(mem), *old(alloc)),
        buf + len < va_limit(),
        buf + len <= usize::MAX,
        len <= isize::MAX,
        (exists|v: usize| spec_floor(buf) <= v < spec_ceil((buf + len) as usize)
            && #[trigger] old(ms).page_needs_copy(*old(alloc), v)) ==> old(alloc).free_frames()
            >= spec_ceil((buf + len) as usize) - spec_floor(buf),
    ensures
        final(ms).wf(),
        final(ms).frames_held(&*final(alloc)),
        alloc_fits(&*final(alloc)),
        covers_alloc(*final(mem), *final(alloc)),
        final(mem).base == old(mem).base,
        final(mem).bytes@.len() == old(mem).bytes@.len(),
        final(files)@.len() == old(files)@.len(),
        match fd_target(proc.fd_table@, fd, false, old(files)@.len() as int) {
            None => r == -1 && final(files)@ == old(files)@ && *final(ms) == *old(ms)
                && *final(alloc) == *old(alloc) && *final(mem) == *old(mem),
            Some(k) => {
                &&& forall|j: int| 0 <= j < old(files)@.len() && j != k ==> #[trigger] final(files)@[j] == old(files)@[j]
                &&& read_outcome(old(files)@[k], final(files)@[k], *fs, old(ms).page_table, final(ms).page_table,
                    *old(mem), *final(mem), *old(alloc), *final(alloc), buf, len, r)
            },
        },
{
    let f = match sys_read(proc, fd) {
        Ok(f) => f,
        Err(e) => return e,
    };
    if f.id >= files.len() as u64 {
        return -1;
    }
    let k = f.id as usize;
    let mut file = copy_open_file(&files[k]);
    let r = read_file_to_user(&mut file, fs, ms, alloc, mem, buf, len);
    files.set(k, file);
    r
}

/// `write(fd, buf, len)` of process `proc`, whose descriptors index the
/// open files `files`: -1, with nothing changed, when `fd` is not open for
/// writing or names no open file (see `sys_write`); otherwise the user
/// bytes are written to that file as `write_file_from_user` says, and no
/// other file changes.
pub fn write_fd(
    proc: &Process,
    files: &mut Vec<OSInode>,
    fs: &mut EasyFileSystem,
    ms: &MemorySet,
    mem: &PhysMem,
    fd: usize,
    buf: usize,
    len: usize,
) -> (r: isize)
    requires
        mem.wf(),
        buf + len <= VPN_LIMIT * PAGE_SIZE,
        buf + len <= usize::MAX,
        len <= isize::MAX,
        len > 0 ==> range_translates(ms.page_table, buf, len),
        fd_target(proc.fd_table@, fd, true, old(files)@.len() as int) matches Some(k) ==> {
            &&& old(fs).node(old(files)@[k].inode.inode_id).is_some()
            &&& old(files)@[k].offset + len <= u32::MAX
        },
    ensures
        final(files)@.len() == old(files)@.len(),
        match fd_target(proc.fd_table@, fd, true, old(files)@.len() as int) {
            None => r == -1 && final(files)@ == old(files)@ && final(fs)@ == old(fs)@,
            Some(k) => {
                &&& forall|j: int| 0 <= j < old(files)@.len() && j != k ==> #[trigger] final(files)@[j] == old(files)@[j]
                &&& write_outcome(old(files)@[k], final(files)@[k], *old(fs), *final(fs), ms.page_table, *mem, buf, len, r)
            },
        },
{
    let f = match sys_write(proc, fd) {
        Ok(f) => f,
        Err(e) => return e,
    };
    if f.id >= files.len() as u64 {
        return -1;
    }
    let k = f.id as usize;
    let mut file = copy_open_file(&files[k]);
    let r = write_file_from_user(&mut file, fs, ms, mem, buf, len);
    files.set(k, file);
    r
}

/// The process after `f` took the lowest free descriptor.
pub open spec fn with_fd(p: Process, f: FileDesc, final_p: Process) -> bool {
    let fd = first_free_fd(p.fd_table@);
    let grown = if fd < p.fd_table@.len() { p.fd_table@ } else { p.fd_table@.push(None) };
    &&& final_p.fd_table@ == grown.update(fd, Some(f))
    &&& unchanged_but_fds(p, final_p)
}

/// Everything of the process but its descriptor table is as in `p`.
pub open spec fn unchanged_but_fds(p: Process, q: Process) -> bool {
    &&& q.pid == p.pid
    &&& q.parent == p.parent
    &&& q.pgid == p.pgid
    &&& q.priority == p.priority
    &&& q.cwd@ == p.cwd@
    &&& q.cwd_inode == p.cwd_inode
    &&& q.sched == p.sched
    &&& q.path_var@ == p.path_var@
    &&& q.sig_ignored == p.sig_ignored
    &&& q.children@ == p.children@
}

/// The directory `open` works in for `path`: the one the part before the
/// last slash names, looked up from the root when the path is absolute,
/// else from the working directory `cwd`; `cwd` itself (or the root) when
/// the path has no slash.
pub open spec fn open_parent(fs: EasyFileSystem, cwd: u32, path: Seq<u8>) -> Option<u32> {
    let start = if is_absolute(path) { 0u32 } else { cwd };
    let j = last_slash(path);
    if j < 0 { Some(start) } else { lookup_spec(fs, start, path.take(j)) }
}

/// The name `open` looks for: the part of `path` after its last slash.
pub open spec fn open_name(path: Seq<u8>) -> Seq<u8> {
    path.skip(last_slash(path) + 1)
}

/// `open` of `path` succeeds: its directory exists, the name is there or
/// is to be created, and a file to be created goes into a directory
/// under a name an entry can hold.
pub open spec fn open_ok(fs: EasyFileSystem, cwd: u32, path: Seq<u8>, flags: u32) -> bool {
    let d = open_parent(fs, cwd, path);
    let name = open_name(path);
    &&& d.is_some()
    &&& open_target(fs, d.unwrap(), name, flags).is_some()
    &&& open_creates_in(fs, d.unwrap(), name, flags) ==> fs.is_dir_spec(d.unwrap()) && valid_name(name)
}

/// Whether `name` can be held by a directory entry.
fn name_fits(name: &[u8]) -> (b: bool)
    ensures
        b == valid_name(name@),
{
    if name.len() > NAME_LENGTH_LIMIT {
        return false;
    }
    let mut i: usize = 0;
    while i < name.len()
        invariant
            i <= name@.len(),
            forall|k: int| 0 <= k < i ==> name@[k] != 0,
        decreases name@.len() - i,
    {
        if name[i] == 0 {
            return false;
        }
        i = i + 1;
    }
    true
}

/// The directory that the part of `path` before its last slash names
/// (see `open_parent`) and the name after that slash.
fn parent_and_name(fs: &EasyFileSystem, cwd: u32, path: &[u8]) -> (r: (Option<Inode>, Vec<u8>))
    ensures
        r.0 == (match open_parent(*fs, cwd, path@) {
            Some(d) => Some(Inode { inode_id: d }),
            None => None::<Inode>,
        }),
        r.1@ == open_name(path@),
{
    let start = if starts_at_root(path) { fs.root_inode() } else { Inode::new(cwd) };
    let mut j: usize = path.len();
    assert(path@.take(j as int) =~= path@);
    while j > 0 && path[j - 1] != SLASH
        invariant
            j <= path@.len(),
            last_slash(path@.take(j as int)) == last_slash(path@),
        decreases j,
    {
        assert(path@.take(j as int).drop_last() =~= path@.take(j - 1));
        j = j - 1;
    }
    proof {
        if j > 0 {
            assert(path@.take(j as int).last() == SLASH);
        } else {
            assert(path@.take(0) =~= Seq::<u8>::empty());
        }
    }
    let parent = if j == 0 {
        Some(start)
    } else {
        let mut pre: Vec<u8> = Vec::new();
        push_range(&mut pre, path, 0, j - 1);
        assert(pre@ =~= path@.take(j - 1));
        start.lookup_path(fs, pre.as_slice())
    };
    let mut name: Vec<u8> = Vec::new();
    push_range(&mut name, path, j, path.len());
    assert(name@ =~= open_name(path@));
    (parent, name)
}

/// `mkdir(path)` goes ahead: the directory before the last slash exists,
/// and the name after it is one an entry can hold, not `.` or `..`, and
/// not there yet.
pub open spec fn mkdir_ok(fs: EasyFileSystem, cwd: u32, path: Seq<u8>) -> bool {
    let d = open_parent(fs, cwd, path);
    let name = open_name(path);
    &&& d.is_some()
    &&& fs.is_dir_spec(d.unwrap())
    &&& valid_name(name)
    &&& !crate::vfs::is_reserved(name)
    &&& fs.find_spec(d.unwrap(), name).is_none()
}

/// Creates the directory `path` (looked up as `open` looks it up): 0, or
/// -1 with nothing changed when `mkdir_ok` does not hold.
pub fn sys_mkdir(proc: &Process, fs: &mut EasyFileSystem, path: &[u8]) -> (r: isize)
    requires
        old(fs).inodes@.len() < u32::MAX,
    ensures
        ({
            let d = open_parent(*old(fs), proc.cwd_inode, path@);
            let name = open_name(path@);
            if mkdir_ok(*old(fs), proc.cwd_inode, path@) {
                let id = first_free(old(fs)@);
                &&& r == 0
                &&& final(fs)@ == placed(old(fs)@, id, fresh_inode(DiskInodeType::Directory, d.unwrap())).update(
                    d.unwrap() as int,
                    Some(with_entries(
                        old(fs).node(d.unwrap()).unwrap(),
                        old(fs).entries_of(d.unwrap()).push((name, id as u32)),
                    )),
                )
            } else {
                r == -1 && final(fs)@ == old(fs)@
            }
        }),
{
    let (parent, name) = parent_and_name(fs, proc.cwd_inode, path);
    let dir = match parent {
        Some(d) => d,
        None => return -1,
    };
    if !dir.is_dir(fs) || !name_fits(name.as_slice()) || is_reserved_name(name.as_slice()) {
        return -1;
    }
    match dir.create_as(fs, name.as_slice(), DiskInodeType::Directory) {
        Some(_) => 0,
        None => -1,
    }
}

/// Removes the entry `path` names (looked up as `open` looks it up), as
/// `Inode::unlink` does in its directory: 0, or -1 with nothing changed
/// when the directory does not exist or `unlink_target` finds nothing.
pub fn sys_unlink(proc: &Process, fs: &mut EasyFileSystem, path: &[u8]) -> (r: isize)
    ensures
        ({
            let d = open_parent(*old(fs), proc.cwd_inode, path@);
            let name = open_name(path@);
            if d.is_some() && unlink_target(*old(fs), d.unwrap(), name).is_some() {
                let t = unlink_target(*old(fs), d.unwrap(), name).unwrap();
                &&& r == 0
                &&& final(fs)@ == freed(old(fs)@, t).update(
                    d.unwrap() as int,
                    Some(with_entries(
                        old(fs).node(d.unwrap()).unwrap(),
                        old(fs).entries_of(d.unwrap()).remove(entry_index(old(fs).entries_of(d.unwrap()), name)),
                    )),
                )
            } else {
                r == -1 && final(fs)@ == old(fs)@
            }
        }),
{
    let (parent, name) = parent_and_name(fs, proc.cwd_inode, path);
    let dir = match parent {
        Some(d) => d,
        None => return -1,
    };
    match dir.unlink(fs, name.as_slice()) {
        Some(_) => 0,
        None => -1,
    }
}

/// `rename(old_path, new_path)` goes ahead: both paths lead to the same
/// existing directory, where `rename_ok` holds for the two names and the
/// new name is one an entry can hold.
pub open spec fn rename_path_ok(fs: EasyFileSystem, cwd: u32, old_path: Seq<u8>, new_path: Seq<u8>) -> bool {
    let d = open_parent(fs, cwd, old_path);
    &&& d.is_some()
    &&& open_parent(fs, cwd, new_path) == d
    &&& valid_name(open_name(new_path))
    &&& rename_ok(fs, d.unwrap(), open_name(old_path), open_name(new_path))
}

/// Renames `old_path` to `new_path` inside one directory, as
/// `Inode::rename` does: 0, or -1 with nothing changed when
/// `rename_path_ok` does not hold.
pub fn sys_rename(proc: &Process, fs: &mut EasyFileSystem, old_path: &[u8], new_path: &[u8]) -> (r: isize)
    ensures
        ({
            let d = open_parent(*old(fs), proc.cwd_inode, old_path@);
            let on = open_name(old_path@);
            let nn = open_name(new_path@);
            if rename_path_ok(*old(fs), proc.cwd_inode, old_path@, new_path@) {
                &&& r == 0
                &&& final(fs)@ == old(fs)@.update(
                    d.unwrap() as int,
                    Some(with_entries(
                        old(fs).node(d.unwrap()).unwrap(),
                        old(fs).entries_of(d.unwrap()).push((nn, old(fs).find_spec(d.unwrap(), on).unwrap())).remove(
                            entry_index(old(fs).entries_of(d.unwrap()), on),
                        ),
                    )),
                )
            } else {
                r == -1 && final(fs)@ == old(fs)@
            }
        }),
{
    let (p1, old_name) = parent_and_name(fs, proc.cwd_inode, old_path);
    let (p2, new_name) = parent_and_name(fs, proc.cwd_inode, new_path);
    let dir = match p1 {
        Some(d) => d,
        None => return -1,
    };
    match p2 {
        Some(d2) => {
            if d2.inode_number() != dir.inode_number() {
                return -1;
            }
        },
        None => return -1,
    }
    if !name_fits(new_name.as_slice()) {
        return -1;
    }
    if dir.rename(fs, old_name.as_slice(), new_name.as_slice()) {
        0
    } else {
        -1
    }
}

/// Opens `path` with `flags` (see `open_parent`, `open_name` and
/// `open_file_in`) and installs the file at the lowest free descriptor,
/// which it returns; -1, with nothing changed, when the open fails.
pub fn sys_open(proc: &mut Process, fs: &mut EasyFileSystem, path: &[u8], flags: u32) -> (r: isize)
    requires
        valid_open_flags(flags),
        old(proc).fd_table@.len() < isize::MAX,
        old(fs).inodes@.len() < u32::MAX,
    ensures
        ({
            let d = open_parent(*old(fs), old(proc).cwd_inode, path@);
            let name = open_name(path@);
            let rw = if flags == 0 { (true, false) } else if flags & O_WRONLY != 0 { (false, true) } else { (true, true) };
            if open_ok(*old(fs), old(proc).cwd_inode, path@, flags) {
                let id = open_target(*old(fs), d.unwrap(), name, flags).unwrap();
                &&& r == first_free_fd(old(proc).fd_table@)
                &&& with_fd(*old(proc), FileDesc { id: id as u64, readable: rw.0, writable: rw.1 }, *final(proc))
                &&& final(fs)@ == opened_inodes(*old(fs), d.unwrap(), name, flags)
            } else {
                &&& r == -1
                &&& final(fs)@ == old(fs)@
                &&& final(proc).fd_table@ == old(proc).fd_table@
                &&& unchanged_but_fds(*old(proc), *final(proc))
            }
        }),
{
    let start = if starts_at_root(path) { fs.root_inode() } else { Inode::new(proc.cwd_inode) };
    let mut j: usize = path.len();
    assert(path@.take(j as int) =~= path@);
    while j > 0 && path[j - 1] != SLASH
        invariant
            j <= path@.len(),
            last_slash(path@.take(j as int)) == last_slash(path@),
        decreases j,
    {
        assert(path@.take(j as int).drop_last() =~= path@.take(j - 1));
        j = j - 1;
    }
    proof {
        if j > 0 {
            assert(path@.take(j as int).last() == SLASH);
        } else {
            assert(path@.take(0) =~= Seq::<u8>::empty());
        }
    }
    let parent = if j == 0 {
        Some(start)
    } else {
        let mut pre: Vec<u8> = Vec::new();
        push_range(&mut pre, path, 0, j - 1);
        assert(pre@ =~= path@.take(j - 1));
        start.lookup_path(fs, pre.as_slice())
    };
    let mut name: Vec<u8> = Vec::new();
    push_range(&mut name, path, j, path.len());
    assert(name@ =~= open_name(path@));
    let dir = match parent {
        Some(d) => d,
        None => return -1,
    };
    let creates = flags & O_CREATE != 0 && dir.find(fs, name.as_slice()).is_none() && !is_reserved_name(
        name.as_slice(),
    );
    if creates && !(dir.is_dir(fs) && name_fits(name.as_slice())) {
        return -1;
    }
    match open_file_in(fs, dir, name.as_slice(), flags) {
        Some(f) => {
            let ghost t0 = proc.fd_table@;
            let fd = proc.alloc_fd();
            let desc = FileDesc { id: f.inode.inode_id as u64, readable: f.readable, writable: f.writable };
            proc.fd_table.set(fd, Some(desc));
            proof {
                let grown = if fd < t0.len() { t0 } else { t0.push(None) };
                assert(proc.fd_table@ =~= grown.update(fd as int, Some(desc)));
            }
            fd as isize
        },
        None => -1,
    }
}

/// Closes `fd`: 0, or -1 when it is not open.
pub fn sys_close(proc: &mut Process, fd: usize) -> (r: isize)
    ensures
        open_fd(old(proc).fd_table@, fd).is_some() ==> r == 0 && final(proc).fd_table@ == old(proc).fd_table@.update(
            fd as int,
            None,
        ),
        open_fd(old(proc).fd_table@, fd).is_none() ==> r == -1 && final(proc).fd_table@ == old(proc).fd_table@,
        unchanged_but_fds(*old(proc), *final(proc)),
{
    if fd >= proc.fd_table.len() {
        return -1;
    }
    if proc.fd_table[fd].is_none() {
        return -1;
    }
    proc.fd_table.set(fd, None);
    0
}

/// Table `t` after `f` took its lowest free descriptor (the table grown by
/// one slot when none is free).
pub open spec fn fd_added(t: Seq<Option<FileDesc>>, f: FileDesc) -> Seq<Option<FileDesc>> {
    let fd = first_free_fd(t);
    let grown = if fd < t.len() { t } else { t.push(None) };
    grown.update(fd, Some(f))
}

/// The descriptors of `pipe`: the read end (the open file `read_id`, for
/// reading) takes the lowest free descriptor, then the write end (the open
/// file `write_id`, for writing) the lowest one left; returns both.
pub fn sys_pipe(proc: &mut Process, read_id: u64, write_id: u64) -> (fds: (usize, usize))
    requires
        old(proc).fd_table@.len() + 2 <= usize::MAX,
    ensures
        ({
            let r = FileDesc { id: read_id, readable: true, writable: false };
            let w = FileDesc { id: write_id, readable: false, writable: true };
            let t1 = fd_added(old(proc).fd_table@, r);
            &&& fds.0 == first_free_fd(old(proc).fd_table@)
            &&& fds.1 == first_free_fd(t1)
            &&& final(proc).fd_table@ == fd_added(t1, w)
        }),
        unchanged_but_fds(*old(proc), *final(proc)),
{
    let r = FileDesc { id: read_id, readable: true, writable: false };
    let w = FileDesc { id: write_id, readable: false, writable: true };
    let ghost t0 = proc.fd_table@;
    let read_fd = proc.alloc_fd();
    proc.fd_table.set(read_fd, Some(r));
    assert(proc.fd_table@ =~= fd_added(t0, r));
    let ghost t1 = proc.fd_table@;
    let write_fd = proc.alloc_fd();
    proc.fd_table.set(write_fd, Some(w));
    assert(proc.fd_table@ =~= fd_added(t1, w));
    (read_fd, write_fd)
}

/// What storing the words `a` and `b` in the two-word user array at
/// `pipe_ptr` left behind (page table `pt1`, `pt0` before; memory `mem1`,
/// `mem0` before; frames of `a0` allocated before and of `a1` after), and
/// the result `r`: when the array's pages could be made private and lie in
/// `mem1`, `r` is 0, `a` and `b` stand in the two words and, besides them,
/// only newly allocated frames changed; otherwise `r` is -1 and only newly
/// allocated frames changed.
pub open spec fn pair_stored(
    pt0: PageTable,
    pt1: PageTable,
    mem0: PhysMem,
    mem1: PhysMem,
    a0: StackFrameAllocator,
    a1: StackFrameAllocator,
    pipe_ptr: usize,
    a: u64,
    b: u64,
    r: isize,
) -> bool {
    let ok = forall|v: usize| spec_floor(pipe_ptr) <= v < spec_ceil((pipe_ptr + 16) as usize) ==> #[trigger] privatizable(pt0, v);
    let d1 = u64_slot(pt1, mem1, pipe_ptr as int);
    let d2 = u64_slot(pt1, mem1, pipe_ptr + 8);
    if ok && d1.is_some() && d2.is_some() {
        &&& r == 0
        &&& exists|before: Seq<u8>|
            #[trigger] only_fresh_changed(mem0.bytes@, before, mem0.base as int, a0, a1) && mem1.bytes@ == u64_stored(
                u64_stored(before, d1.unwrap(), a),
                d2.unwrap(),
                b,
            )
        &&& forall|k: int| 0 <= k < 8 ==> #[trigger] user_byte(pt1, mem1, pipe_ptr + 8 + k) == Some(u64_byte(b, k as u32))
    } else {
        &&& r == -1
        &&& only_fresh_changed(mem0.bytes@, mem1.bytes@, mem0.base as int, a0, a1)
    }
}

/// Stores `a` and `b` in the two-word user array at the 8-aligned
/// `pipe_ptr` of `ms`, after making its pages private (see
/// `read_file_to_user`): 0, or -1 when those pages cannot be made private
/// and writable or lie outside `mem`.
fn store_pair_to_user(
    ms: &mut MemorySet,
    alloc: &mut StackFrameAllocator,
    mem: &mut PhysMem,
    pipe_ptr: usize,
    a: u64,
    b: u64,
) -> (r: isize)
    requires
        old(ms).wf(),
        old(ms).frames_held(&*old(alloc)),
        alloc_fits(&*old(alloc)),
        old(mem).wf(),
        covers_alloc(*old(mem), *old(alloc)),
        pipe_ptr % 8 == 0,
        pipe_ptr + 16 < va_limit(),
        pipe_ptr + 16 <= usize::MAX,
        (exists|v: usize| spec_floor(pipe_ptr) <= v < spec_ceil((pipe_ptr + 16) as usize)
            && #[trigger] old(ms).page_needs_copy(*old(alloc), v)) ==> old(alloc).free_frames()
            >= spec_ceil((pipe_ptr + 16) as usize) - spec_floor(pipe_ptr),
    ensures
        final(ms).wf(),
        final(ms).frames_held(&*final(alloc)),
        alloc_fits(&*final(alloc)),
        covers_alloc(*final(mem), *final(alloc)),
        final(mem).base == old(mem).base,
        final(mem).bytes@.len() == old(mem).bytes@.len(),
        pair_stored(old(ms).page_table, final(ms).page_table, *old(mem), *final(mem), *old(alloc), *final(alloc),
            pipe_ptr, a, b, r),
{
    proof {
        assert(((pipe_ptr + 16) as usize) as int == pipe_ptr + 16);
        assert(spec_va((pipe_ptr + 16) as usize) == (pipe_ptr + 16) as usize);
    }
    let ok = ms.ensure_private_range(pipe_ptr, 16, alloc, mem);
    if !ok {
        return -1;
    }
    let ghost m1 = *mem;
    if !store_pair(&ms.page_table, mem, pipe_ptr, a, b) {
        return -1;
    }
    proof {
        assert(only_fresh_changed(old(mem).bytes@, m1.bytes@, old(mem).base as int, *old(alloc), *alloc));
    }
    0
}

/// `pipe(pipe_ptr)` of process `proc`: the descriptors of the new pipe,
/// whose ends are the open files `read_id` and `write_id`, are taken as
/// `sys_pipe` says; then the pages of the two-word array at the 8-aligned
/// `pipe_ptr` are made private (see `read_file_to_user`) and the read
/// end's descriptor is stored in its first word, the write end's in its
/// second, and 0 is returned. -1, with the descriptors kept, when those
/// pages cannot be made private and writable or lie outside `mem`.
pub fn sys_pipe_user(
    proc: &mut Process,
    ms: &mut MemorySet,
    alloc: &mut StackFrameAllocator,
    mem: &mut PhysMem,
    pipe_ptr: usize,
    read_id: u64,
    write_id: u64,
) -> (r: isize)
    requires
        old(ms).wf(),
        old(ms).frames_held(&*old(alloc)),
        alloc_fits(&*old(alloc)),
        old(mem).wf(),
        covers_alloc(*old(mem), *old(alloc)),
        pipe_ptr % 8 == 0,
        pipe_ptr + 16 < va_limit(),
        pipe_ptr + 16 <= usize::MAX,
        old(proc).fd_table@.len() + 2 <= usize::MAX,
        (exists|v: usize| spec_floor(pipe_ptr) <= v < spec_ceil((pipe_ptr + 16) as usize)
            && #[trigger] old(ms).page_needs_copy(*old(alloc), v)) ==> old(alloc).free_frames()
            >= spec_ceil((pipe_ptr + 16) as usize) - spec_floor(pipe_ptr),
    ensures
        final(ms).wf(),
        final(ms).frames_held(&*final(alloc)),
        alloc_fits(&*final(alloc)),
        covers_alloc(*final(mem), *final(alloc)),
        final(mem).base == old(mem).base,
        final(mem).bytes@.len() == old(mem).bytes@.len(),
        unchanged_but_fds(*old(proc), *final(proc)),
        ({
            let t0 = old(proc).fd_table@;
            let t1 = fd_added(t0, FileDesc { id: read_id, readable: true, writable: false });
            &&& final(proc).fd_table@ == fd_added(t1, FileDesc { id: write_id, readable: false, writable: true })
            &&& pair_stored(old(ms).page_table, final(ms).page_table, *old(mem), *final(mem), *old(alloc),
                *final(alloc), pipe_ptr, first_free_fd(t0) as u64, first_free_fd(t1) as u64, r)
        }),
{
    let (a, b) = sys_pipe(proc, read_id, write_id);
    store_pair_to_user(ms, alloc, mem, pipe_ptr, a as u64, b as u64)
}

/// Stores `a` and then `b` in the two words at the 8-aligned user address
/// `p`; `false`, with nothing stored, when a word's page does not translate
/// or its frame lies outside `mem`.
fn store_pair(pt: &PageTable, mem: &mut PhysMem, p: usize, a: u64, b: u64) -> (ok: bool)
    requires
        p % 8 == 0,
        p + 16 <= usize::MAX,
    ensures
        final(mem).base == old(mem).base,
        final(mem).bytes@.len() == old(mem).bytes@.len(),
        ok == (u64_slot(*pt, *old(mem), p as int).is_some() && u64_slot(*pt, *old(mem), p + 8).is_some()),
        u64_slot(*pt, *final(mem), p as int) == u64_slot(*pt, *old(mem), p as int),
        u64_slot(*pt, *final(mem), p + 8) == u64_slot(*pt, *old(mem), p + 8),
        ok ==> final(mem).bytes@ == u64_stored(
            u64_stored(old(mem).bytes@, u64_slot(*pt, *old(mem), p as int).unwrap(), a),
            u64_slot(*pt, *old(mem), p + 8).unwrap(),
            b,
        ),
        ok ==> forall|k: int| 0 <= k < 8 ==> #[trigger] user_byte(*pt, *final(mem), p + 8 + k) == Some(u64_byte(b, k as u32)),
        !ok ==> *final(mem) == *old(mem),
{
    if !user_word_slot_ok(pt, mem, p) || !user_word_slot_ok(pt, mem, p + 8) {
        return false;
    }
    let ghost m0 = *mem;
    write_user_u64(pt, mem, p, a);
    let ghost m1 = *mem;
    assert(u64_slot(*pt, m1, p + 8) == u64_slot(*pt, m0, p + 8));
    assert(u64_slot(*pt, m1, p as int) == u64_slot(*pt, m0, p as int));
    write_user_u64(pt, mem, p + 8, b);
    assert(u64_slot(*pt, *mem, p + 8) == u64_slot(*pt, m0, p + 8));
    assert(u64_slot(*pt, *mem, p as int) == u64_slot(*pt, m0, p as int));
    true
}

/// Duplicates `fd` to the lowest free descriptor and returns it; -1 when `fd` is not open.
pub fn sys_dup(proc: &mut Process, fd: usize) -> (r: isize)
    requires
        old(proc).fd_table@.len() < isize::MAX,
    ensures
        match open_fd(old(proc).fd_table@, fd) {
            Some(f) => r == first_free_fd(old(proc).fd_table@) && with_fd(*old(proc), f, *final(proc)),
            None => r == -1 && final(proc).fd_table@ == old(proc).fd_table@ && unchanged_but_fds(*old(proc), *final(proc)),
        },
{
    if fd >= proc.fd_table.len() {
        return -1;
    }
    match proc.fd_table[fd] {
        Some(f) => {
            let ghost t0 = proc.fd_table@;
            let new_fd = proc.alloc_fd();
            proc.fd_table.set(new_fd, Some(f));
            proof {
                let grown = if new_fd < t0.len() { t0 } else { t0.push(None) };
                assert(proc.fd_table@ =~= grown.update(new_fd as int, Some(f)));
            }
            new_fd as isize
        },
        None => -1,
    }
}

/// Copies what fits of `src` to the front of `dst`; returns how much.
pub fn copy_prefix(src: &[u8], dst: &mut Vec<u8>) -> (w: usize)
    ensures
        w == (if src@.len() < old(dst)@.len() { src@.len() } else { old(dst)@.len() }),
        final(dst)@ == src@.take(w as int) + old(dst)@.skip(w as int),
{
    let w = if src.len() < dst.len() { src.len() } else { dst.len() };
    let mut i: usize = 0;
    while i < w
        invariant
            i <= w,
            w <= src@.len(),
            w <= old(dst)@.len(),
            dst@.len() == old(dst)@.len(),
            forall|j: int| 0 <= j < i ==> dst@[j] == src@[j],
            forall|j: int| i <= j < dst@.len() ==> dst@[j] == old(dst)@[j],
        decreases w - i,
    {
        dst.set(i, src[i]);
        i = i + 1;
    }
    assert(dst@ =~= src@.take(w as int) + old(dst)@.skip(w as int));
    w
}

/// Copies the working directory's path into `buf`, as much as fits; returns how much.
pub fn sys_getcwd(proc: &Process, buf: &mut Vec<u8>) -> (r: isize)
    requires
        old(buf)@.len() <= isize::MAX,
    ensures
        r == (if proc.cwd@.len() < old(buf)@.len() { proc.cwd@.len() } else { old(buf)@.len() }),
        final(buf)@ == proc.cwd@.take(r as int) + old(buf)@.skip(r as int),
{
    copy_prefix(proc.cwd.as_slice(), buf) as isize
}

/// Copies the `PATH` variable into `buf`, as much as fits; returns how much.
pub fn sys_getpath(proc: &Process, buf: &mut Vec<u8>) -> (r: isize)
    requires
        old(buf)@.len() <= isize::MAX,
    ensures
        r == (if proc.path_var@.len() < old(buf)@.len() { proc.path_var@.len() } else { old(buf)@.len() }),
        final(buf)@ == proc.path_var@.take(r as int) + old(buf)@.skip(r as int),
{
    copy_prefix(proc.path_var.as_slice(), buf) as isize
}

/// Replaces the `PATH` variable.
pub fn sys_setpath(proc: &mut Process, path: Vec<u8>) -> (r: isize)
    ensures
        r == 0,
        final(proc).path_var@ == path@,
        final(proc).fd_table@ == old(proc).fd_table@,
        final(proc).pid == old(proc).pid,
        final(proc).parent == old(proc).parent,
        final(proc).pgid == old(proc).pgid,
        final(proc).priority == old(proc).priority,
        final(proc).cwd@ == old(proc).cwd@,
        final(proc).cwd_inode == old(proc).cwd_inode,
        final(proc).sched == old(proc).sched,
        final(proc).sig_ignored == old(proc).sig_ignored,
        final(proc).children@ == old(proc).children@,
{
    proc.path_var = path;
    0
}

/// Moving a file offset is not supported: always -1.
pub fn sys_lseek(fd: usize, offset: isize, whence: u32) -> (r: isize)
    ensures
        r == -1,
{
    -1
}

// ---------------------------------------------------------------- paths

/// The components of `s` between slashes (empty ones included).
pub open spec fn split_slash(s: Seq<u8>) -> Seq<Seq<u8>>
    decreases s.len(),
{
    if s.len() == 0 {
        seq![Seq::empty()]
    } else {
        let r = split_slash(s.drop_last());
        if s.last() == SLASH {
            r.push(Seq::empty())
        } else {
            r.update(r.len() - 1, r.last().push(s.last()))
        }
    }
}

pub(crate) proof fn lemma_split_slash_nonempty(s: Seq<u8>)
    ensures
        split_slash(s).len() >= 1,
    decreases s.len(),
{
    if s.len() > 0 {
        lemma_split_slash_nonempty(s.drop_last());
    }
}

/// A component that names a directory: neither empty nor `.`.
pub open spec fn kept_component(c: Seq<u8>) -> bool {
    c.len() != 0 && c != seq![DOT]
}

/// The kept components of `cs`, joined by slashes.
pub open spec fn kept_join(cs: Seq<Seq<u8>>) -> Seq<u8>
    decreases cs.len(),
{
    if cs.len() == 0 {
        Seq::empty()
    } else {
        let r = kept_join(cs.drop_last());
        let c = cs.last();
        if !kept_component(c) {
            r
        } else if r.len() == 0 {
            c
        } else {
            r + seq![SLASH] + c
        }
    }
}

/// `path` without empty and `.` components; `/` when nothing is left.
pub open spec fn normalize_spec(path: Seq<u8>) -> Seq<u8> {
    let r = kept_join(split_slash(path));
    if r.len() == 0 {
        seq![SLASH]
    } else if is_absolute(path) {
        seq![SLASH] + r
    } else {
        r
    }
}

/// Appends component `comp` to the joined path `result` when it is kept.
fn join_component(result: &mut Vec<u8>, comp: &Vec<u8>)
    ensures
        final(result)@ == (if !kept_component(comp@) {
            old(result)@
        } else if old(result)@.len() == 0 {
            comp@
        } else {
            old(result)@ + seq![SLASH] + comp@
        }),
{
    let is_dot = comp.len() == 1 && comp[0] == DOT;
    proof {
        if comp@.len() == 1 {
            assert(comp@ == seq![DOT] <==> comp@[0] == DOT) by {
                if comp@[0] == DOT {
                    assert(comp@ =~= seq![DOT]);
                }
            }
        }
    }
    if comp.len() == 0 || is_dot {
        return;
    }
    if result.len() > 0 {
        result.push(SLASH);
    }
    let mut i: usize = 0;
    let ghost r0 = result@;
    while i < comp.len()
        invariant
            i <= comp@.len(),
            result@ == r0 + comp@.take(i as int),
        decreases comp@.len() - i,
    {
        result.push(comp[i]);
        assert(comp@.take(i + 1) =~= comp@.take(i as int).push(comp@[i as int]));
        assert(result@ =~= r0 + comp@.take(i + 1));
        i = i + 1;
    }
    assert(comp@.take(i as int) =~= comp@);
    proof {
        if old(result)@.len() == 0 {
            assert(result@ =~= comp@);
        } else {
            assert(result@ =~= old(result)@ + seq![SLASH] + comp@);
        }
    }
}

/// Removes `.` and empty components from `path`.
pub fn normalize_path(path: &[u8]) -> (r: Vec<u8>)
    ensures
        r@ == normalize_spec(path@),
{
    let mut result: Vec<u8> = Vec::new();
    let mut comp: Vec<u8> = Vec::new();
    let ghost mut done: Seq<Seq<u8>> = Seq::empty();
    let mut i: usize = 0;
    assert(path@.take(0) =~= Seq::<u8>::empty());
    assert(split_slash(Seq::<u8>::empty()) =~= done.push(comp@));
    while i < path.len()
        invariant
            i <= path@.len(),
            split_slash(path@.take(i as int)) == done.push(comp@),
            result@ == kept_join(done),
        decreases path@.len() - i,
    {
        let b = path[i];
        let ghost prev = path@.take(i as int);
        assert(path@.take(i + 1).drop_last() =~= prev);
        assert(path@.take(i + 1).last() == b);
        if b == SLASH {
            join_component(&mut result, &comp);
            proof {
                assert(done.push(comp@).drop_last() =~= done);
                done = done.push(comp@);
            }
            comp = Vec::new();
            assert(split_slash(path@.take(i + 1)) =~= done.push(comp@));
        } else {
            comp.push(b);
            proof {
                lemma_split_slash_nonempty(prev);
                assert(split_slash(path@.take(i + 1)) =~= done.push(comp@));
            }
        }
        i = i + 1;
    }
    join_component(&mut result, &comp);
    proof {
        assert(path@.take(i as int) =~= path@);
        assert(done.push(comp@).drop_last() =~= done);
    }
    if result.len() == 0 {
        let mut r: Vec<u8> = Vec::new();
        r.push(SLASH);
        assert(r@ =~= seq![SLASH]);
        r
    } else if path.len() > 0 && path[0] == SLASH {
        let mut r: Vec<u8> = Vec::new();
        r.push(SLASH);
        let ghost r0 = r@;
        let mut k: usize = 0;
        while k < result.len()
            invariant
                k <= result@.len(),
                r@ == seq![SLASH] + result@.take(k as int),
            decreases result@.len() - k,
        {
            r.push(result[k]);
            assert(result@.take(k + 1) =~= result@.take(k as int).push(result@[k as int]));
            assert(r@ =~= seq![SLASH] + result@.take(k + 1));
            k = k + 1;
        }
        assert(result@.take(k as int) =~= result@);
        r
    } else {
        result
    }
}

/// `s` without its leading slashes.
pub open spec fn strip_leading_slashes(s: Seq<u8>) -> Seq<u8>
    decreases s.len(),
{
    if s.len() > 0 && s[0] == SLASH {
        strip_leading_slashes(s.drop_first())
    } else {
        s
    }
}

/// `s` without its trailing slashes.
pub open spec fn strip_trailing_slashes(s: Seq<u8>) -> Seq<u8>
    decreases s.len(),
{
    if s.len() > 0 && s.last() == SLASH {
        strip_trailing_slashes(s.drop_last())
    } else {
        s
    }
}

/// `s` without slashes at either end.
pub open spec fn trim_slashes(s: Seq<u8>) -> Seq<u8> {
    strip_trailing_slashes(strip_leading_slashes(s))
}

/// Index of the last slash of `s`, or -1.
pub open spec fn last_slash(s: Seq<u8>) -> int
    decreases s.len(),
{
    if s.len() == 0 {
        -1
    } else if s.last() == SLASH {
        s.len() - 1
    } else {
        last_slash(s.drop_last())
    }
}

/// The working directory a change of directory to `path` from `old`
/// names, before it is normalized.
pub open spec fn chdir_path_spec(old: Seq<u8>, path: Seq<u8>) -> Seq<u8> {
    if is_absolute(path) {
        let t = trim_slashes(path);
        if t.len() == 0 { seq![SLASH] } else { seq![SLASH] + t }
    } else if path == seq![DOT] {
        old
    } else if path == seq![DOT, DOT] {
        if old == seq![SLASH] {
            seq![SLASH]
        } else {
            let pos = last_slash(old);
            if pos <= 0 { seq![SLASH] } else { old.take(pos) }
        }
    } else if old == seq![SLASH] {
        seq![SLASH] + path
    } else {
        old + seq![SLASH] + path
    }
}

/// `a` and `b` hold the same bytes.
pub(crate) fn bytes_eq(a: &[u8], b: &[u8]) -> (r: bool)
    ensures
        r == (a@ == b@),
{
    if a.len() != b.len() {
        return false;
    }
    let mut i: usize = 0;
    while i < a.len()
        invariant
            i <= a@.len(),
            a@.len() == b@.len(),
            forall|j: int| 0 <= j < i ==> a@[j] == b@[j],
        decreases a@.len() - i,
    {
        if a[i] != b[i] {
            return false;
        }
        i = i + 1;
    }
    assert(a@ =~= b@);
    true
}

/// Appends `src[from..to]` to `dst`.
fn push_range(dst: &mut Vec<u8>, src: &[u8], from: usize, to: usize)
    requires
        from <= to <= src@.len(),
    ensures
        final(dst)@ == old(dst)@ + src@.subrange(from as int, to as int),
{
    let mut k: usize = from;
    while k < to
        invariant
            from <= k <= to,
            to <= src@.len(),
            dst@ == old(dst)@ + src@.subrange(from as int, k as int),
        decreases to - k,
    {
        dst.push(src[k]);
        assert(src@.subrange(from as int, k + 1) =~= src@.subrange(from as int, k as int).push(src@[k as int]));
        assert(dst@ =~= old(dst)@ + src@.subrange(from as int, k + 1));
        k = k + 1;
    }
}

/// The path of the directory that `chdir(path)` enters from `old`, normalized.
pub fn chdir_path(old: &[u8], path: &[u8]) -> (r: Vec<u8>)
    ensures
        r@ == normalize_spec(chdir_path_spec(old@, path@)),
{
    let slash_only: [u8; 1] = [SLASH];
    let dot: [u8; 1] = [DOT];
    let dot_dot: [u8; 2] = [DOT, DOT];
    assert(slash_only@ =~= seq![SLASH]);
    assert(dot@ =~= seq![DOT]);
    assert(dot_dot@ =~= seq![DOT, DOT]);
    let mut p: Vec<u8> = Vec::new();
    if path.len() > 0 && path[0] == SLASH {
        // Trim slashes at both ends.
        let mut a: usize = 0;
        assert(path@.skip(0) =~= path@);
        while a < path.len() && path[a] == SLASH
            invariant
                a <= path@.len(),
                strip_leading_slashes(path@.skip(a as int)) == strip_leading_slashes(path@),
            decreases path@.len() - a,
        {
            assert(path@.skip(a as int).drop_first() =~= path@.skip(a + 1));
            a = a + 1;
        }
        assert(strip_leading_slashes(path@.skip(a as int)) == path@.skip(a as int));
        let mut b: usize = path.len();
        while b > a && path[b - 1] == SLASH
            invariant
                a <= b <= path@.len(),
                strip_trailing_slashes(path@.subrange(a as int, b as int)) == trim_slashes(path@),
            decreases b,
        {
            assert(path@.subrange(a as int, b as int).drop_last() =~= path@.subrange(a as int, b - 1));
            b = b - 1;
        }
        assert(path@.skip(a as int) =~= path@.subrange(a as int, path@.len() as int));
        assert(strip_trailing_slashes(path@.subrange(a as int, b as int)) == path@.subrange(a as int, b as int));
        p.push(SLASH);
        push_range(&mut p, path, a, b);
        proof {
            if a == b {
                assert(p@ =~= seq![SLASH]);
            } else {
                assert(p@ =~= seq![SLASH] + trim_slashes(path@));
            }
        }
    } else if bytes_eq(path, &dot) {
        push_range(&mut p, old, 0, old.len());
        assert(p@ =~= old@);
    } else if bytes_eq(path, &dot_dot) {
        if bytes_eq(old, &slash_only) {
            p.push(SLASH);
            assert(p@ =~= seq![SLASH]);
        } else {
            // Find the last slash of `old`.
            let mut j: usize = old.len();
            assert(old@.take(j as int) =~= old@);
            while j > 0 && old[j - 1] != SLASH
                invariant
                    j <= old@.len(),
                    last_slash(old@.take(j as int)) == last_slash(old@),
                decreases j,
            {
                assert(old@.take(j as int).drop_last() =~= old@.take(j - 1));
                j = j - 1;
            }
            proof {
                if j > 0 {
                    assert(old@.take(j as int).last() == SLASH);
                }
            }
            if j <= 1 {
                p.push(SLASH);
                assert(p@ =~= seq![SLASH]);
            } else {
                push_range(&mut p, old, 0, j - 1);
                assert(p@ =~= old@.take(j - 1));
            }
        }
    } else if bytes_eq(old, &slash_only) {
        p.push(SLASH);
        push_range(&mut p, path, 0, path.len());
        assert(p@ =~= seq![SLASH] + path@);
    } else {
        push_range(&mut p, old, 0, old.len());
        p.push(SLASH);
        push_range(&mut p, path, 0, path.len());
        assert(p@ =~= old@ + seq![SLASH] + path@);
    }
    assert(p@ == chdir_path_spec(old@, path@));
    normalize_path(p.as_slice())
}

/// The inode `path` names for a process whose working directory is inode
/// `cwd`: an absolute path is looked up from the root, any other from `cwd`.
pub open spec fn resolve_path(fs: EasyFileSystem, cwd: u32, path: Seq<u8>) -> Option<u32> {
    lookup_spec(fs, if is_absolute(path) { 0u32 } else { cwd }, path)
}

/// Looks `path` up from the root when it is absolute, else from `cwd`.
pub fn lookup_from(fs: &EasyFileSystem, cwd: u32, path: &[u8]) -> (r: Option<Inode>)
    ensures
        r == (match resolve_path(*fs, cwd, path@) {
            Some(n) => Some(Inode { inode_id: n }),
            None => None::<Inode>,
        }),
{
    let start = if starts_at_root(path) { fs.root_inode() } else { Inode::new(cwd) };
    start.lookup_path(fs, path)
}

/// Changes the working directory to `path`, looked up from the root or
/// the working directory: 0 on success, -1 when the path names nothing or
/// no directory.
pub fn sys_chdir(proc: &mut Process, fs: &EasyFileSystem, path: &[u8]) -> (r: isize)
    ensures
        ({
            let t = resolve_path(*fs, old(proc).cwd_inode, path@);
            if t.is_some() && fs.is_dir_spec(t.unwrap()) {
                &&& r == 0
                &&& final(proc).cwd@ == normalize_spec(chdir_path_spec(old(proc).cwd@, path@))
                &&& final(proc).cwd_inode == t.unwrap()
            } else {
                &&& r == -1
                &&& final(proc).cwd@ == old(proc).cwd@
                &&& final(proc).cwd_inode == old(proc).cwd_inode
            }
        }),
        final(proc).fd_table@ == old(proc).fd_table@,
        final(proc).pid == old(proc).pid,
        final(proc).parent == old(proc).parent,
        final(proc).pgid == old(proc).pgid,
        final(proc).priority == old(proc).priority,
        final(proc).path_var@ == old(proc).path_var@,
        final(proc).sig_ignored == old(proc).sig_ignored,
        final(proc).children@ == old(proc).children@,
        final(proc).sched == old(proc).sched,
{
    match lookup_from(fs, proc.cwd_inode, path) {
        Some(dir) => {
            if !dir.is_dir(fs) {
                return -1;
            }
            let new_path = chdir_path(proc.cwd.as_slice(), path);
            proc.cwd = new_path;
            proc.cwd_inode = dir.inode_number();
            0
        },
        None => -1,
    }
}

// ---------------------------------------------------------------- listings

/// The decimal digits of `n`.
pub open spec fn decimal(n: nat) -> Seq<u8>
    decreases n,
{
    if n < 10 {
        seq![(0x30 + n) as u8]
    } else {
        decimal(n / 10).push((0x30 + n % 10) as u8)
    }
}

/// Appends the decimal digits of `n` to `out`.
pub fn push_decimal(out: &mut Vec<u8>, n: usize)
    ensures
        final(out)@ == old(out)@ + decimal(n as nat),
    decreases n,
{
    if n >= 10 {
        push_decimal(out, n / 10);
    }
    out.push((0x30 + n % 10) as u8);
    proof {
        if n < 10 {
            assert(out@ =~= old(out)@ + decimal(n as nat));
        } else {
            assert(out@ =~= old(out)@ + decimal(n as nat));
        }
    }
}

/// One entry of a directory: its name, and whether it is a directory
/// (`None` when looking it up failed).
pub struct DirEntry {
    pub name: Vec<u8>,
    pub is_dir: Option<bool>,
}

/// An entry as the listing shows it: its name, and whether it is a directory.
pub open spec fn dirent_view(e: DirEntry) -> (Seq<u8>, Option<bool>) {
    (e.name@, e.is_dir)
}

/// The line of the listing for an entry: `d `, `f ` or `? `, the name, a newline.
pub open spec fn entry_line(e: (Seq<u8>, Option<bool>)) -> Seq<u8> {
    let tag = match e.1 {
        Some(true) => seq![0x64u8, 0x20u8],
        Some(false) => seq![0x66u8, 0x20u8],
        None => seq![0x3fu8, 0x20u8],
    };
    tag + e.0 + seq![NEWLINE]
}

pub open spec fn entry_lines(es: Seq<(Seq<u8>, Option<bool>)>) -> Seq<u8>
    decreases es.len(),
{
    if es.len() == 0 {
        Seq::empty()
    } else {
        entry_lines(es.drop_last()) + entry_line(es.last())
    }
}

/// The listing of a directory: `total N`, then one line per entry.
pub open spec fn listing_spec(es: Seq<(Seq<u8>, Option<bool>)>) -> Seq<u8> {
    seq![0x74u8, 0x6fu8, 0x74u8, 0x61u8, 0x6cu8, 0x20u8] + decimal(es.len()) + seq![NEWLINE] + entry_lines(es)
}

/// The entries of directory `d` in order, each with whether looking its
/// name up in `d` finds a directory (`None` when the lookup fails).
pub open spec fn dir_entries(fs: EasyFileSystem, d: u32) -> Seq<(Seq<u8>, Option<bool>)> {
    fs.entries_of(d).map_values(
        |e: (Seq<u8>, u32)|
            (
                e.0,
                match fs.find_spec(d, e.0) {
                    Some(m) => Some(fs.is_dir_spec(m)),
                    None => None,
                },
            ),
    )
}

/// The text listing of the entries of a directory.
pub fn dir_listing(entries: &Vec<DirEntry>) -> (r: Vec<u8>)
    ensures
        r@ == listing_spec(entries@.map_values(|e: DirEntry| dirent_view(e))),
{
    let ghost es = entries@.map_values(|e: DirEntry| dirent_view(e));
    let mut out: Vec<u8> = Vec::new();
    out.push(0x74);
    out.push(0x6f);
    out.push(0x74);
    out.push(0x61);
    out.push(0x6c);
    out.push(0x20);
    push_decimal(&mut out, entries.len());
    out.push(NEWLINE);
    let ghost head = out@;
    assert(head =~= seq![0x74u8, 0x6fu8, 0x74u8, 0x61u8, 0x6cu8, 0x20u8] + decimal(es.len()) + seq![NEWLINE]);
    let mut i: usize = 0;
    while i < entries.len()
        invariant
            es == entries@.map_values(|e: DirEntry| dirent_view(e)),
            i <= entries@.len(),
            out@ == head + entry_lines(es.take(i as int)),
        decreases entries@.len() - i,
    {
        let e = &entries[i];
        let ghost before = out@;
        match e.is_dir {
            Some(true) => {
                out.push(0x64);
            },
            Some(false) => {
                out.push(0x66);
            },
            None => {
                out.push(0x3f);
            },
        }
        out.push(0x20);
        push_range(&mut out, e.name.as_slice(), 0, e.name.len());
        out.push(NEWLINE);
        proof {
            assert(e.name@.subrange(0, e.name@.len() as int) =~= e.name@);
            assert(out@ =~= before + entry_line(dirent_view(*e)));
            assert(es.take(i + 1).drop_last() =~= es.take(i as int));
            assert(es.take(i + 1).last() == dirent_view(*e));
        }
        i = i + 1;
    }
    assert(es.take(i as int) =~= es);
    out
}

/// The entries of directory `dir`, each with whether its name leads to a
/// directory.
fn dir_entries_of(fs: &EasyFileSystem, dir: &Inode) -> (r: Vec<DirEntry>)
    ensures
        r@.map_values(|e: DirEntry| dirent_view(e)) == dir_entries(*fs, dir.inode_id),
{
    let names = dir.ls(fs);
    let ghost want = dir_entries(*fs, dir.inode_id);
    let mut out: Vec<DirEntry> = Vec::new();
    let mut i: usize = 0;
    while i < names.len()
        invariant
            want == dir_entries(*fs, dir.inode_id),
            names@.len() == want.len(),
            forall|k: int| 0 <= k < names@.len() ==> (#[trigger] names@[k])@ == fs.entries_of(dir.inode_id)[k].0,
            i <= names@.len(),
            out@.len() == i,
            forall|k: int| 0 <= k < i ==> dirent_view(#[trigger] out@[k]) == want[k],
        decreases names@.len() - i,
    {
        let name = crate::editor::clone_bytes(names[i].as_slice());
        let tag = match dir.find(fs, names[i].as_slice()) {
            Some(m) => Some(m.is_dir(fs)),
            None => None,
        };
        out.push(DirEntry { name, is_dir: tag });
        proof {
            assert(names@[i as int]@ == fs.entries_of(dir.inode_id)[i as int].0);
            assert(dirent_view(out@[i as int]) == want[i as int]);
        }
        i = i + 1;
    }
    assert(out@.map_values(|e: DirEntry| dirent_view(e)) =~= want);
    out
}

/// Lists the directory `path` names (looked up from the root or the
/// working directory; the empty path and `/` name the start itself) into
/// `buf`, as much as fits, and returns how much. -1 when the path names
/// nothing or no directory.
pub fn sys_getdents(proc: &Process, fs: &EasyFileSystem, path: &[u8], buf: &mut Vec<u8>) -> (r: isize)
    requires
        old(buf)@.len() <= isize::MAX,
    ensures
        ({
            let t = resolve_path(*fs, proc.cwd_inode, path@);
            if t.is_some() && fs.is_dir_spec(t.unwrap()) {
                let l = listing_spec(dir_entries(*fs, t.unwrap()));
                &&& r == (if l.len() < old(buf)@.len() { l.len() } else { old(buf)@.len() })
                &&& final(buf)@ == l.take(r as int) + old(buf)@.skip(r as int)
            } else {
                r == -1 && final(buf)@ == old(buf)@
            }
        }),
{
    let dir = match lookup_from(fs, proc.cwd_inode, path) {
        Some(d) => d,
        None => return -1,
    };
    if !dir.is_dir(fs) {
        return -1;
    }
    let entries = dir_entries_of(fs, &dir);
    let listing = dir_listing(&entries);
    copy_prefix(listing.as_slice(), buf) as isize
}

/// What copying the bytes `data` to the user buffer at `buf` left behind:
/// the page table `pt1` (`pt0` before) and the memory `mem1` (`mem0`
/// before, with the frames of `a0` allocated then and those of `a1`
/// after), and the result `r`. The pages of the range are made private
/// first; when they could be and lie in `mem1`, `r` is the number of bytes
/// and they stand at the buffer's addresses; otherwise `r` is -1. Besides
/// those bytes only newly allocated frames (private copies of shared
/// pages) changed.
pub open spec fn copy_outcome(
    pt0: PageTable,
    pt1: PageTable,
    mem0: PhysMem,
    mem1: PhysMem,
    a0: StackFrameAllocator,
    a1: StackFrameAllocator,
    buf: usize,
    data: Seq<u8>,
    r: isize,
) -> bool {
    let len = data.len() as usize;
    let ok = len == 0 || forall|v: usize| spec_floor(buf) <= v < spec_ceil((buf + len) as usize) ==> #[trigger] privatizable(pt0, v);
    let cs = chunks_of(pt1, buf, len);
    if ok && buf_in_mem(cs, mem1) {
        &&& r == len
        &&& exists|before: Seq<u8>|
            #[trigger] only_fresh_changed(mem0.bytes@, before, mem0.base as int, a0, a1) && mem1.bytes@ == stored(
                before,
                mem1.base as int,
                buf_addrs(cs),
                data,
            )
    } else {
        &&& r == -1
        &&& only_fresh_changed(mem0.bytes@, mem1.bytes@, mem0.base as int, a0, a1)
    }
}

/// Copies `data` to the user buffer at `buf` of the address space `ms`, as
/// the kernel returns bytes to a caller: the pages of the range are first
/// made private (see `read_file_to_user`), then the bytes are stored
/// through the page table; returns their number, or -1 when a page cannot
/// be made private and writable or lies outside `mem`.
pub fn copy_to_user(
    ms: &mut MemorySet,
    alloc: &mut StackFrameAllocator,
    mem: &mut PhysMem,
    buf: usize,
    data: &[u8],
) -> (r: isize)
    requires
        old(ms).wf(),
        old(ms).frames_held(&*old(alloc)),
        alloc_fits(&*old(alloc)),
        old(mem).wf(),
        covers_alloc(*old(mem), *old(alloc)),
        buf + data@.len() < va_limit(),
        buf + data@.len() <= usize::MAX,
        data@.len() <= isize::MAX,
        (exists|v: usize| spec_floor(buf) <= v < spec_ceil((buf + data@.len()) as usize)
            && #[trigger] old(ms).page_needs_copy(*old(alloc), v)) ==> old(alloc).free_frames()
            >= spec_ceil((buf + data@.len()) as usize) - spec_floor(buf),
    ensures
        final(ms).wf(),
        final(ms).frames_held(&*final(alloc)),
        alloc_fits(&*final(alloc)),
        covers_alloc(*final(mem), *final(alloc)),
        final(mem).base == old(mem).base,
        final(mem).bytes@.len() == old(mem).bytes@.len(),
        copy_outcome(old(ms).page_table, final(ms).page_table, *old(mem), *final(mem), *old(alloc), *final(alloc), buf,
            data@, r),
{
    let len = data.len();
    let ok = ms.ensure_private_range(buf, len, alloc, mem);
    proof {
        assert(((buf + len) as usize) as int == buf + len);
        assert(spec_va((buf + len) as usize) == (buf + len) as usize);
    }
    if !ok {
        return -1;
    }
    proof {
        if len > 0 {
            assert forall|v: usize| (buf as int) / (PAGE_SIZE as int) <= v <= (buf + len - 1) / (PAGE_SIZE as int) implies #[trigger] ms.page_table.spec_translate(v).is_some() by {
                assert(spec_floor(buf) <= v < spec_ceil((buf + len) as usize)) by (nonlinear_arith)
                    requires
                        (buf as int) / 4096 <= v <= (buf + len - 1) / 4096,
                        spec_floor(buf) == buf / 4096,
                        spec_ceil((buf + len) as usize) == (buf + len + 4095) / 4096,
                        len > 0,
                ;
                assert(private_writable(ms.page_table, v));
            }
        }
    }
    let ghost m1 = *mem;
    match buffer_in_mem(&ms.page_table, mem, buf, len) {
        None => -1,
        Some(ub) => {
            store_to_user(&ub, mem, data);
            proof {
                assert(mem.bytes@ == stored(m1.bytes@, m1.base as int, buf_addrs(ub.buffers@), data@));
            }
            len as isize
        },
    }
}

/// The first `n` bytes of `s`.
fn prefix_of(s: &[u8], n: usize) -> (r: Vec<u8>)
    requires
        n <= s@.len(),
    ensures
        r@ == s@.take(n as int),
{
    let mut r: Vec<u8> = Vec::new();
    let mut i: usize = 0;
    while i < n
        invariant
            i <= n,
            n <= s@.len(),
            r@ == s@.take(i as int),
        decreases n - i,
    {
        r.push(s[i]);
        assert(r@ =~= s@.take(i + 1));
        i = i + 1;
    }
    r
}

/// `getcwd(buf, len)` into user memory: as much of the working directory's
/// path as fits in `len` bytes is copied to the buffer at `buf` by
/// `copy_to_user`.
pub fn sys_getcwd_user(
    proc: &Process,
    ms: &mut MemorySet,
    alloc: &mut StackFrameAllocator,
    mem: &mut PhysMem,
    buf: usize,
    len: usize,
) -> (r: isize)
    requires
        old(ms).wf(),
        old(ms).frames_held(&*old(alloc)),
        alloc_fits(&*old(alloc)),
        old(mem).wf(),
        covers_alloc(*old(mem), *old(alloc)),
        buf + len < va_limit(),
        buf + len <= usize::MAX,
        len <= isize::MAX,
        (exists|v: usize| spec_floor(buf) <= v < spec_ceil((buf + len) as usize)
            && #[trigger] old(ms).page_needs_copy(*old(alloc), v)) ==> old(alloc).free_frames()
            >= spec_ceil((buf + len) as usize) - spec_floor(buf),
    ensures
        final(ms).wf(),
        final(ms).frames_held(&*final(alloc)),
        alloc_fits(&*final(alloc)),
        covers_alloc(*final(mem), *final(alloc)),
        final(mem).base == old(mem).base,
        final(mem).bytes@.len() == old(mem).bytes@.len(),
        copy_outcome(old(ms).page_table, final(ms).page_table, *old(mem), *final(mem), *old(alloc), *final(alloc), buf,
            proc.cwd@.take(if proc.cwd@.len() < len { proc.cwd@.len() as int } else { len as int }), r),
{
    let n = if proc.cwd.len() < len { proc.cwd.len() } else { len };
    let part = prefix_of(proc.cwd.as_slice(), n);
    proof {
        lemma_pages_of_prefix(buf, n, len);
    }
    copy_to_user(ms, alloc, mem, buf, part.as_slice())
}

/// `getpath(buf, len)` into user memory: as much of the `PATH` variable as
/// fits in `len` bytes is copied to the buffer at `buf` by `copy_to_user`.
pub fn sys_getpath_user(
    proc: &Process,
    ms: &mut MemorySet,
    alloc: &mut StackFrameAllocator,
    mem: &mut PhysMem,
    buf: usize,
    len: usize,
) -> (r: isize)
    requires
        old(ms).wf(),
        old(ms).frames_held(&*old(alloc)),
        alloc_fits(&*old(alloc)),
        old(mem).wf(),
        covers_alloc(*old(mem), *old(alloc)),
        buf + len < va_limit(),
        buf + len <= usize::MAX,
        len <= isize::MAX,
        (exists|v: usize| spec_floor(buf) <= v < spec_ceil((buf + len) as usize)
            && #[trigger] old(ms).page_needs_copy(*old(alloc), v)) ==> old(alloc).free_frames()
            >= spec_ceil((buf + len) as usize) - spec_floor(buf),
    ensures
        final(ms).wf(),
        final(ms).frames_held(&*final(alloc)),
        alloc_fits(&*final(alloc)),
        covers_alloc(*final(mem), *final(alloc)),
        final(mem).base == old(mem).base,
        final(mem).bytes@.len() == old(mem).bytes@.len(),
        copy_outcome(old(ms).page_table, final(ms).page_table, *old(mem), *final(mem), *old(alloc), *final(alloc), buf,
            proc.path_var@.take(if proc.path_var@.len() < len { proc.path_var@.len() as int } else { len as int }), r),
{
    let n = if proc.path_var.len() < len { proc.path_var.len() } else { len };
    let part = prefix_of(proc.path_var.as_slice(), n);
    proof {
        lemma_pages_of_prefix(buf, n, len);
    }
    copy_to_user(ms, alloc, mem, buf, part.as_slice())
}

/// `getdents(path, buf, len)` into user memory: the listing of directory
/// `path` (see `sys_getdents`), as much of it as fits in `len` bytes, is
/// copied to the buffer at `buf` by `copy_to_user`; -1, with nothing
/// changed, when `path` names no directory.
pub fn sys_getdents_user(
    proc: &Process,
    fs: &EasyFileSystem,
    path: &[u8],
    ms: &mut MemorySet,
    alloc: &mut StackFrameAllocator,
    mem: &mut PhysMem,
    buf: usize,
    len: usize,
) -> (r: isize)
    requires
        old(ms).wf(),
        old(ms).frames_held(&*old(alloc)),
        alloc_fits(&*old(alloc)),
        old(mem).wf(),
        covers_alloc(*old(mem), *old(alloc)),
        buf + len < va_limit(),
        buf + len <= usize::MAX,
        len <= isize::MAX,
        (exists|v: usize| spec_floor(buf) <= v < spec_ceil((buf + len) as usize)
            && #[trigger] old(ms).page_needs_copy(*old(alloc), v)) ==> old(alloc).free_frames()
            >= spec_ceil((buf + len) as usize) - spec_floor(buf),
    ensures
        final(ms).wf(),
        final(ms).frames_held(&*final(alloc)),
        alloc_fits(&*final(alloc)),
        covers_alloc(*final(mem), *final(alloc)),
        final(mem).base == old(mem).base,
        final(mem).bytes@.len() == old(mem).bytes@.len(),
        ({
            let t = resolve_path(*fs, proc.cwd_inode, path@);
            if t.is_some() && fs.is_dir_spec(t.unwrap()) {
                let l = listing_spec(dir_entries(*fs, t.unwrap()));
                copy_outcome(old(ms).page_table, final(ms).page_table, *old(mem), *final(mem), *old(alloc),
                    *final(alloc), buf, l.take(if l.len() < len { l.len() as int } else { len as int }), r)
            } else {
                r == -1 && *final(ms) == *old(ms) && *final(mem) == *old(mem) && *final(alloc) == *old(alloc)
            }
        }),
{
    let dir = match lookup_from(fs, proc.cwd_inode, path) {
        Some(d) => d,
        None => return -1,
    };
    if !dir.is_dir(fs) {
        return -1;
    }
    let entries = dir_entries_of(fs, &dir);
    let listing = dir_listing(&entries);
    let n = if listing.len() < len { listing.len() } else { len };
    let part = prefix_of(listing.as_slice(), n);
    proof {
        lemma_pages_of_prefix(buf, n, len);
    }
    copy_to_user(ms, alloc, mem, buf, part.as_slice())
}

/// `getpath` gives back what `setpath` set: once `sys_setpath(path)` made
/// `path` the process's `PATH` variable, a `sys_getpath_user(buf, len)`
/// that succeeds returns `min(path.len(), len)` and stores that many first
/// bytes of `path` at the buffer's addresses, besides which only newly
/// allocated frames changed.
pub proof fn lemma_setpath_then_getpath(
    path: Seq<u8>,
    q: Process,
    pt0: PageTable,
    pt1: PageTable,
    mem0: PhysMem,
    mem1: PhysMem,
    a0: StackFrameAllocator,
    a1: StackFrameAllocator,
    buf: usize,
    len: usize,
    r: isize,
)
    requires
        q.path_var@ == path,
        copy_outcome(pt0, pt1, mem0, mem1, a0, a1, buf,
            q.path_var@.take(if q.path_var@.len() < len { q.path_var@.len() as int } else { len as int }), r),
        r != -1,
        len <= isize::MAX,
    ensures
        r == (if path.len() < len { path.len() as int } else { len as int }),
        exists|before: Seq<u8>|
            #[trigger] only_fresh_changed(mem0.bytes@, before, mem0.base as int, a0, a1) && mem1.bytes@ == stored(
                before,
                mem1.base as int,
                buf_addrs(chunks_of(pt1, buf, r as usize)),
                path.take(r as int),
            ),
{
}

/// A shorter range at the same start touches no page that the longer one
/// does not.
proof fn lemma_pages_of_prefix(buf: usize, n: usize, len: usize)
    requires
        n <= len,
        buf + len <= usize::MAX,
    ensures
        spec_ceil((buf + n) as usize) <= spec_ceil((buf + len) as usize),
{
    assert((buf + n + 4095) / 4096 <= (buf + len + 4095) / 4096) by (nonlinear_arith)
        requires
            n <= len,
    ;
}

} // verus!
