use rcore_os::page_table::{PageTable, PTEFlags, FLAG_R, FLAG_U, FLAG_W, FLAG_X};
use rcore_os::frame_allocator::StackFrameAllocator;
use rcore_os::process::{signal_from_bits, ChildInfo, FileDesc, Process, ProcessTable, SIGCONT, SIGINT};
use rcore_os::syscall_fs::{
    chdir_path, dir_listing, normalize_path, push_decimal, read_write, starts_at_root, sys_chdir,
    sys_close, sys_dup, sys_getcwd, sys_getdents, sys_getpath, sys_lseek, sys_open, sys_read,
    sys_setpath, sys_write, DirEntry,
};
use rcore_os::syscall_process::{
    sys_get_priority, sys_get_sched_stats, sys_get_time, sys_getpgrp, sys_getpid, sys_kill,
    fork_child_return, sys_exit, sys_fork, sys_yield, sys_set_priority, sys_setpgid, sys_sigaction, sys_tcgetpgrp, sys_tcsetpgrp, sys_waitpid,
    user_range_writable, wait_target, SignalAction, WaitTarget, WUNTRACED,
};
use rcore_os::tty::TtyInner;
use rcore_os::manager::TaskManager;
use rcore_os::task::{TaskControlBlock, TaskStatus};
use rcore_os::sched::SchedInfo;
use rcore_os::syscall_process::SchedStats;
use rcore_os::memory_set::{MapPermission, MemorySet};
use rcore_os::phys_mem::PhysMem;
use rcore_os::frame_allocator::PAGE_SIZE;
use rcore_os::syscall_fs::{sys_getcwd_user, sys_getdents_user, sys_getpath_user, sys_pipe, sys_pipe_user, read_fd, write_fd, read_file_to_user, sys_mkdir, sys_rename, sys_unlink, write_file_from_user, O_CREATE, O_RDWR};
use rcore_os::fs_inode::OSInode;
use rcore_os::vfs::{DiskInodeType, EasyFileSystem, Inode};

fn file(id: u64, readable: bool, writable: bool) -> FileDesc {
    FileDesc { id, readable, writable }
}

fn process(pid: usize, parent: Option<usize>) -> Process {
    Process {
        pid,
        parent,
        pgid: pid,
        priority: Some(4),
        fd_table: vec![Some(file(0, true, false)), Some(file(1, false, true)), Some(file(1, false, true))],
        cwd: b"/".to_vec(),
        cwd_inode: 0,
        path_var: b"/bin:/usr/bin".to_vec(),
        sig_ignored: 0,
        children: Vec::new(),
        sched: SchedInfo::new(4),
    }
}

/// `/usr` (a directory), `/file.txt`, and the directories `/a` and `/a/b`.
fn tree() -> (EasyFileSystem, Inode, Inode, Inode) {
    let mut fs = EasyFileSystem::new();
    let root = fs.root_inode();
    let usr = root.create_as(&mut fs, b"usr", DiskInodeType::Directory).unwrap();
    root.create(&mut fs, b"file.txt").unwrap();
    let a = root.create_as(&mut fs, b"a", DiskInodeType::Directory).unwrap();
    let b = a.create_as(&mut fs, b"b", DiskInodeType::Directory).unwrap();
    (fs, usr, a, b)
}

fn child(pid: usize, is_zombie: bool, stopped: bool, exit_code: i32) -> ChildInfo {
    ChildInfo { pid, is_zombie, stopped, exit_code }
}

#[test]
fn write_and_read_check_the_descriptor() {
    let p = process(1, None);
    assert_eq!(sys_write(&p, 1), Ok(file(1, false, true)));
    assert_eq!(sys_write(&p, 0), Err(-1));
    assert_eq!(sys_write(&p, 7), Err(-1));
    assert_eq!(sys_read(&p, 0), Ok(file(0, true, false)));
    assert_eq!(sys_read(&p, 1), Err(-1));
}

#[test]
fn open_takes_lowest_free_descriptor() {
    let mut fs = EasyFileSystem::new();
    let mut p = process(1, None);
    assert_eq!(sys_open(&mut p, &mut fs, b"/x", O_CREATE | O_RDWR), 3);
    assert_eq!(p.fd_table[3], Some(file(1, true, true)));
    assert_eq!(sys_close(&mut p, 1), 0);
    assert_eq!(sys_open(&mut p, &mut fs, b"x", 0), 1);
    assert_eq!(p.fd_table[1], Some(file(1, true, false)));
    assert_eq!(sys_open(&mut p, &mut fs, b"missing", 0), -1);
    assert_eq!(sys_open(&mut p, &mut fs, b"nodir/f", O_CREATE), -1);
    assert_eq!(p.fd_table.len(), 4);
}

#[test]
fn open_resolves_from_the_working_directory() {
    let (mut fs, usr, a, b) = tree();
    let mut p = process(1, None);
    assert_eq!(sys_open(&mut p, &mut fs, b"a/b/new", O_CREATE), 3);
    let made = b.find(&fs, b"new").unwrap();
    assert_eq!(p.fd_table[3], Some(file(made.inode_number() as u64, true, true)));
    p.cwd_inode = a.inode_number();
    assert_eq!(sys_open(&mut p, &mut fs, b"b/new", 0), 4);
    assert_eq!(sys_open(&mut p, &mut fs, b"/usr/none", 0), -1);
    assert_eq!(sys_open(&mut p, &mut fs, b"/file.txt/x", O_CREATE), -1);
    assert!(usr.is_empty_directory(&fs));
}

#[test]
fn close_rejects_closed_or_unknown_descriptors() {
    let mut p = process(1, None);
    assert_eq!(sys_close(&mut p, 2), 0);
    assert_eq!(sys_close(&mut p, 2), -1);
    assert_eq!(sys_close(&mut p, 40), -1);
}

#[test]
fn close_then_dup_moves_descriptor_to_zero() {
    let mut fs = EasyFileSystem::new();
    fs.root_inode().create(&mut fs, b"f").unwrap();
    let mut p = process(1, None);
    assert_eq!(sys_open(&mut p, &mut fs, b"f", 0), 3);
    assert_eq!(sys_close(&mut p, 0), 0);
    assert_eq!(sys_dup(&mut p, 3), 0);
    assert_eq!(p.fd_table[0], Some(file(1, true, false)));
    assert_eq!(sys_dup(&mut p, 8), -1);
}

#[test]
fn open_flags_decide_access() {
    assert_eq!(read_write(0), (true, false));
    assert_eq!(read_write(1), (false, true));
    assert_eq!(read_write(2), (true, true));
    assert_eq!(read_write(0x200 | 1), (false, true));
    assert_eq!(read_write(0x400), (true, true));
}

#[test]
fn lseek_is_unsupported() {
    assert_eq!(sys_lseek(0, 10, 0), -1);
}

#[test]
fn normalize_drops_dot_and_empty_components() {
    assert_eq!(normalize_path(b"/a/./b//c/"), b"/a/b/c".to_vec());
    assert_eq!(normalize_path(b"a/./b"), b"a/b".to_vec());
    assert_eq!(normalize_path(b"/./"), b"/".to_vec());
    assert_eq!(normalize_path(b""), b"/".to_vec());
    assert_eq!(normalize_path(b"/a/../b"), b"/a/../b".to_vec());
}

#[test]
fn chdir_paths() {
    assert_eq!(chdir_path(b"/", b"bin"), b"/bin".to_vec());
    assert_eq!(chdir_path(b"/home", b"user"), b"/home/user".to_vec());
    assert_eq!(chdir_path(b"/home/user", b".."), b"/home".to_vec());
    assert_eq!(chdir_path(b"/home", b".."), b"/".to_vec());
    assert_eq!(chdir_path(b"/", b".."), b"/".to_vec());
    assert_eq!(chdir_path(b"/home", b"."), b"/home".to_vec());
    assert_eq!(chdir_path(b"/home", b"//usr//lib//"), b"/usr/lib".to_vec());
    assert_eq!(chdir_path(b"/home", b"///"), b"/".to_vec());
    assert_eq!(chdir_path(b"/home", b"./docs/."), b"/home/docs".to_vec());
}

#[test]
fn chdir_needs_an_existing_directory() {
    let (fs, usr, _a, b) = tree();
    let mut p = process(1, None);
    assert_eq!(sys_chdir(&mut p, &fs, b"nowhere"), -1);
    assert_eq!(sys_chdir(&mut p, &fs, b"file.txt"), -1);
    assert_eq!(p.cwd, b"/".to_vec());
    assert_eq!(p.cwd_inode, 0);
    assert_eq!(sys_chdir(&mut p, &fs, b"usr"), 0);
    assert_eq!(p.cwd, b"/usr".to_vec());
    assert_eq!(p.cwd_inode, usr.inode_number());
    assert_eq!(sys_chdir(&mut p, &fs, b".."), 0);
    assert_eq!(p.cwd, b"/".to_vec());
    assert_eq!(p.cwd_inode, 0);
    assert_eq!(sys_chdir(&mut p, &fs, b"a/./b/"), 0);
    assert_eq!(p.cwd, b"/a/b".to_vec());
    assert_eq!(p.cwd_inode, b.inode_number());
    assert_eq!(sys_chdir(&mut p, &fs, b"/usr"), 0);
    assert_eq!(p.cwd, b"/usr".to_vec());
    assert_eq!(sys_chdir(&mut p, &fs, b"b"), -1);
    assert_eq!(p.cwd, b"/usr".to_vec());
}

#[test]
fn getcwd_copies_what_fits() {
    let mut p = process(1, None);
    p.cwd = b"/home/user".to_vec();
    let mut buf = vec![0u8; 5];
    assert_eq!(sys_getcwd(&p, &mut buf), 5);
    assert_eq!(buf, b"/home".to_vec());
    let mut big = vec![b'x'; 12];
    assert_eq!(sys_getcwd(&p, &mut big), 10);
    assert_eq!(big, b"/home/userxx".to_vec());
}

#[test]
fn path_variable_roundtrip() {
    let mut p = process(1, None);
    assert_eq!(sys_setpath(&mut p, b"/bin".to_vec()), 0);
    let mut buf = vec![0u8; 8];
    assert_eq!(sys_getpath(&p, &mut buf), 4);
    assert_eq!(&buf[..4], b"/bin");
}

#[test]
fn decimal_digits() {
    let mut out = Vec::new();
    push_decimal(&mut out, 0);
    assert_eq!(out, b"0".to_vec());
    let mut out = b"n=".to_vec();
    push_decimal(&mut out, 1203);
    assert_eq!(out, b"n=1203".to_vec());
}

#[test]
fn directory_listing_format() {
    let entries = vec![
        DirEntry { name: b"bin".to_vec(), is_dir: Some(true) },
        DirEntry { name: b"a.txt".to_vec(), is_dir: Some(false) },
        DirEntry { name: b"odd".to_vec(), is_dir: None },
    ];
    assert_eq!(dir_listing(&entries), b"total 3\nd bin\nf a.txt\n? odd\n".to_vec());
    assert_eq!(dir_listing(&Vec::new()), b"total 0\n".to_vec());
}

#[test]
fn getdents_checks_the_directory() {
    let (fs, _usr, a, _b) = tree();
    let mut p = process(1, None);
    let mut buf = vec![0u8; 10];
    assert_eq!(sys_getdents(&p, &fs, b"nowhere", &mut buf), -1);
    assert_eq!(sys_getdents(&p, &fs, b"file.txt", &mut buf), -1);
    assert_eq!(buf, vec![0u8; 10]);
    assert_eq!(sys_getdents(&p, &fs, b"", &mut buf), 10);
    assert_eq!(buf, b"total 3\nd ".to_vec());
    let mut big = vec![0u8; 64];
    let n = sys_getdents(&p, &fs, b"/", &mut big);
    let want = b"total 3\nd usr\nf file.txt\nd a\n";
    assert_eq!(n, want.len() as isize);
    assert_eq!(&big[..want.len()], &want[..]);
    p.cwd_inode = a.inode_number();
    let mut small = vec![0u8; 64];
    assert_eq!(sys_getdents(&p, &fs, b"", &mut small), 12);
    assert_eq!(&small[..12], b"total 1\nd b\n");
}

#[test]
fn absolute_paths_start_at_root() {
    assert!(starts_at_root(b"/bin"));
    assert!(!starts_at_root(b"bin"));
    assert!(!starts_at_root(b""));
}

#[test]
fn simple_process_calls() {
    let p = process(7, None);
    assert_eq!(sys_getpid(&p), 7);
    assert_eq!(sys_getpgrp(&p), 7);
    assert_eq!(sys_get_time(1234), 1234);
}

fn ram() -> PhysMem {
    PhysMem { base: 0x100 * PAGE_SIZE, bytes: vec![0; 0x100 * PAGE_SIZE] }
}

/// Code at pages 1..3 (read-only) and data at pages 0x10..0x12 (writable).
fn user_space(a: &mut StackFrameAllocator) -> MemorySet {
    let mut ms = MemorySet::new_bare(a);
    ms.map_trampoline(0x3ff, a);
    ms.insert_framed_area(0x1000, 0x3000, MapPermission { bits: FLAG_R | FLAG_X | FLAG_U }, a);
    ms.insert_framed_area(0x10000, 0x12000, MapPermission { bits: FLAG_R | FLAG_W | FLAG_U }, a);
    ms
}

fn slot_index(ms: &MemorySet, mem: &PhysMem, va: usize) -> usize {
    ms.translate(va / PAGE_SIZE).unwrap().ppn() * PAGE_SIZE + va % PAGE_SIZE - mem.base
}

fn read_i32(ms: &MemorySet, mem: &PhysMem, va: usize) -> i32 {
    let i = slot_index(ms, mem, va);
    i32::from_le_bytes([mem.bytes[i], mem.bytes[i + 1], mem.bytes[i + 2], mem.bytes[i + 3]])
}

#[test]
fn waitpid_cases() {
    let mut a = StackFrameAllocator::new();
    a.init(0x100, 0x200);
    let mut mem = ram();
    let mut ms = user_space(&mut a);
    let slot = 0x10008;
    let mut p = process(1, None);
    assert_eq!(sys_waitpid(&mut p, &mut ms, &mut a, &mut mem, -1, slot, 0), -1);
    p.children = vec![child(2, false, false, 0), child(3, false, true, 0), child(4, true, false, 42)];
    assert_eq!(sys_waitpid(&mut p, &mut ms, &mut a, &mut mem, 9, slot, 0), -1);
    assert_eq!(sys_waitpid(&mut p, &mut ms, &mut a, &mut mem, 2, slot, 0), -2);
    assert_eq!(wait_target(&p, -1, WUNTRACED), WaitTarget::Stopped);
    assert_eq!(sys_waitpid(&mut p, &mut ms, &mut a, &mut mem, 3, slot, WUNTRACED), -3);
    // the code page cannot take the exit code
    assert_eq!(sys_waitpid(&mut p, &mut ms, &mut a, &mut mem, -1, 0x1008, 0), -1);
    assert_eq!(p.children.len(), 3);
    assert_eq!(sys_waitpid(&mut p, &mut ms, &mut a, &mut mem, -1, slot, 0), 4);
    assert_eq!(read_i32(&ms, &mem, slot), 42);
    assert_eq!(p.children.len(), 2);
    assert_eq!(sys_waitpid(&mut p, &mut ms, &mut a, &mut mem, -1, slot, 0), -2);
}

#[test]
fn waitpid_reaps_first_matching_zombie() {
    let mut a = StackFrameAllocator::new();
    a.init(0x100, 0x200);
    let mut mem = ram();
    let mut ms = user_space(&mut a);
    let mut p = process(1, None);
    p.children = vec![child(5, true, false, 1), child(6, true, false, -2)];
    assert_eq!(wait_target(&p, -1, 0), WaitTarget::Zombie(0));
    assert_eq!(sys_waitpid(&mut p, &mut ms, &mut a, &mut mem, 6, 0x11ffc, 0), 6);
    assert_eq!(read_i32(&ms, &mem, 0x11ffc), -2);
    assert_eq!(p.children, vec![child(5, true, false, 1)]);
    assert_eq!(sys_waitpid(&mut p, &mut ms, &mut a, &mut mem, 6, 0x11ffc, 0), -1);
}

#[test]
fn waitpid_writes_into_a_private_copy() {
    let mut a = StackFrameAllocator::new();
    a.init(0x100, 0x200);
    let mut mem = ram();
    let mut parent = user_space(&mut a);
    let slot = 0x10010;
    let i = slot_index(&parent, &mem, slot);
    mem.bytes[i..i + 4].copy_from_slice(&7i32.to_le_bytes());
    let (forked, _) = parent.from_existed_user_cow(0x3ff, &mut a, &mut mem);
    let mut p = process(1, None);
    p.children = vec![child(9, true, false, -5)];
    assert_eq!(sys_waitpid(&mut p, &mut parent, &mut a, &mut mem, 9, slot, 0), 9);
    assert_eq!(read_i32(&parent, &mem, slot), -5);
    assert_eq!(read_i32(&forked, &mem, slot), 7);
    assert_ne!(parent.translate(0x10).unwrap().ppn(), forked.translate(0x10).unwrap().ppn());
}

fn table() -> ProcessTable {
    ProcessTable { procs: vec![process(1, None), process(2, Some(1)), process(3, Some(2))] }
}

#[test]
fn kill_dispatch() {
    let t = table();
    assert_eq!(sys_kill(&t, 1, 2, SIGINT), (0, Some(SignalAction::Signal(2, SIGINT))));
    assert_eq!(sys_kill(&t, 1, 99, SIGINT), (-1, None));
    assert_eq!(sys_kill(&t, 1, -4, SIGINT), (0, Some(SignalAction::SignalGroup(4, SIGINT))));
    assert_eq!(sys_kill(&t, 8, 0, SIGINT), (0, Some(SignalAction::SignalGroup(8, SIGINT))));
    assert_eq!(sys_kill(&t, 1, 3, SIGCONT), (0, Some(SignalAction::ContinueProcess(3))));
    assert_eq!(sys_kill(&t, 1, 99, SIGCONT), (-1, None));
    assert_eq!(sys_kill(&t, 1, -7, SIGCONT), (0, Some(SignalAction::ContinueGroup(7))));
    assert_eq!(sys_kill(&t, 5, 0, SIGCONT), (0, Some(SignalAction::ContinueGroup(5))));
    assert_eq!(sys_kill(&t, 1, 2, 1), (-1, None));
    assert_eq!(signal_from_bits(1 << 3), None);
    assert_eq!(signal_from_bits(SIGINT | SIGCONT), Some(SIGINT | SIGCONT));
}

#[test]
fn setpgid_only_self_or_child() {
    let mut t = table();
    assert_eq!(sys_setpgid(&mut t, 0, 0, 0), 0);
    assert_eq!(t.procs[0].pgid, 1);
    assert_eq!(sys_setpgid(&mut t, 0, 2, 10), 0);
    assert_eq!(t.procs[1].pgid, 10);
    assert_eq!(sys_setpgid(&mut t, 0, 3, 10), -1);
    assert_eq!(sys_setpgid(&mut t, 0, 42, 0), -1);
    assert_eq!(sys_setpgid(&mut t, 1, 3, 0), 0);
    assert_eq!(t.procs[2].pgid, 3);
}

#[test]
fn priorities() {
    let mut t = table();
    assert_eq!(sys_set_priority(&mut t, 0, 0, 8), -2);
    assert_eq!(sys_set_priority(&mut t, 0, 77, 3), -1);
    assert_eq!(sys_set_priority(&mut t, 0, 2, 6), 0);
    assert_eq!(sys_get_priority(&t, 0, 2), 6);
    assert_eq!(sys_get_priority(&t, 1, 0), 6);
    assert_eq!(sys_get_priority(&t, 0, 0), 4);
    assert_eq!(sys_get_priority(&t, 0, 77), -1);
    t.procs[2].priority = None;
    assert_eq!(sys_set_priority(&mut t, 0, 3, 1), 0);
    assert_eq!(sys_get_priority(&t, 0, 3), -1);
}

#[test]
fn foreground_group() {
    let t = table();
    let mut tty = TtyInner::new();
    assert_eq!(sys_tcsetpgrp(&t, &mut tty, 0, 0), -1);
    assert_eq!(sys_tcsetpgrp(&t, &mut tty, 0, 50), -1);
    assert_eq!(sys_tcgetpgrp(&tty, 0), 0);
    assert_eq!(sys_tcsetpgrp(&t, &mut tty, 0, 2), 0);
    assert_eq!(sys_tcgetpgrp(&tty, 0), 2);
}

#[test]
fn sigaction_sets_and_clears() {
    let mut p = process(1, None);
    assert_eq!(sys_sigaction(&mut p, SIGINT, 1), 0);
    assert_eq!(p.sig_ignored, SIGINT);
    assert_eq!(sys_sigaction(&mut p, SIGINT, 2), -1);
    assert_eq!(sys_sigaction(&mut p, 1 << 5, 1), -1);
    assert_eq!(sys_sigaction(&mut p, SIGINT, 0), 0);
    assert_eq!(p.sig_ignored, 0);
}

#[test]
fn user_ranges_and_stats() {
    let mut alloc = StackFrameAllocator::new();
    alloc.init(0x100, 0x200);
    let mut pt = PageTable::new(&mut alloc);
    let rw = PTEFlags::from_bits(FLAG_R | FLAG_W | FLAG_U);
    pt.map(0x10, 0x150, rw, &mut alloc);
    pt.map(0x11, 0x151, rw, &mut alloc);
    pt.map(0x12, 0x152, PTEFlags::from_bits(FLAG_R | FLAG_U), &mut alloc);
    assert!(user_range_writable(&pt, 0x10_000, 0x2000));
    assert!(user_range_writable(&pt, 0x10_ff0, 0x20));
    assert!(!user_range_writable(&pt, 0x11_ff0, 0x20));
    assert!(!user_range_writable(&pt, 0x13_000, 1));
    assert!(!user_range_writable(&pt, 0, 16));
    assert!(!user_range_writable(&pt, 0x10_000, 0));
    assert!(!user_range_writable(&pt, 0x40_0000_0000, 8));
    let mut t = table();
    t.procs[0].sched.runtime_ticks = 12;
    t.procs[0].sched.scheduled_count = 3;
    let zero = SchedStats {
        pid: 0,
        base_priority: 0,
        effective_priority: 0,
        runtime_ticks: 0,
        total_wait_ticks: 0,
        scheduled_count: 0,
    };
    let mut stats = zero;
    assert_eq!(sys_get_sched_stats(&t, 0, 99, &pt, 0x10_000, 64, &mut stats), -1);
    assert_eq!(sys_get_sched_stats(&t, 0, 2, &pt, 0x12_000, 64, &mut stats), -2);
    assert_eq!(sys_get_sched_stats(&t, 0, 0, &pt, 0, 64, &mut stats), -2);
    assert_eq!(stats, zero);
    assert_eq!(sys_set_priority(&mut t, 0, 0, 7), 0);
    assert_eq!(sys_get_sched_stats(&t, 0, 0, &pt, 0x10_000, 64, &mut stats), 0);
    assert_eq!(stats.pid, 1);
    assert_eq!(stats.base_priority, 7);
    assert_eq!(stats.effective_priority, 7);
    assert_eq!(stats.runtime_ticks, 12);
    assert_eq!(stats.scheduled_count, 3);
    assert_eq!(sys_get_sched_stats(&t, 0, 2, &pt, 0x10_000, 64, &mut stats), 0);
    assert_eq!(stats.pid, 2);
    assert_eq!(stats.base_priority, 4);
}

fn user_bytes(ms: &MemorySet, mem: &PhysMem, va: usize, n: usize) -> Vec<u8> {
    (va..va + n).map(|x| mem.bytes[slot_index(ms, mem, x)]).collect()
}

#[test]
fn read_copies_file_bytes_into_a_private_user_buffer() {
    let mut a = StackFrameAllocator::new();
    a.init(0x100, 0x200);
    let mut mem = ram();
    let mut parent = user_space(&mut a);
    let mut fs = EasyFileSystem::new();
    let inode = fs.root_inode().create(&mut fs, b"data").unwrap();
    let content: Vec<u8> = (0..40u8).map(|x| x + 1).collect();
    inode.write_at(&mut fs, 0, &content);
    let buf = 0x10ff0;
    let before = user_bytes(&parent, &mem, buf, 0x20);
    let (forked, _) = parent.from_existed_user_cow(0x3ff, &mut a, &mut mem);
    let mut file = OSInode::new(true, false, inode);
    // the buffer crosses from page 0x10 into page 0x11
    assert_eq!(read_file_to_user(&mut file, &fs, &mut parent, &mut a, &mut mem, buf, 0x20), 0x20);
    assert_eq!(user_bytes(&parent, &mem, buf, 0x20), content[..0x20].to_vec());
    assert_eq!(file.offset, 0x20);
    // the other address space still sees its own copy
    assert_eq!(user_bytes(&forked, &mem, buf, 0x20), before);
    // only 8 bytes are left
    assert_eq!(read_file_to_user(&mut file, &fs, &mut parent, &mut a, &mut mem, buf, 0x20), 8);
    assert_eq!(user_bytes(&parent, &mem, buf, 8), content[0x20..].to_vec());
    assert_eq!(read_file_to_user(&mut file, &fs, &mut parent, &mut a, &mut mem, buf, 0x20), 0);
    // a read-only page cannot take the bytes
    assert_eq!(read_file_to_user(&mut file, &fs, &mut parent, &mut a, &mut mem, 0x1000, 4), -1);
}

#[test]
fn write_copies_user_bytes_into_the_file() {
    let mut a = StackFrameAllocator::new();
    a.init(0x100, 0x200);
    let mut mem = ram();
    let ms = user_space(&mut a);
    let buf = 0x10ffc;
    for (k, x) in (buf..buf + 8).enumerate() {
        let i = slot_index(&ms, &mem, x);
        mem.bytes[i] = b'a' + k as u8;
    }
    let mut fs = EasyFileSystem::new();
    let inode = fs.root_inode().create(&mut fs, b"out").unwrap();
    let mut file = OSInode::new(false, true, inode);
    assert_eq!(write_file_from_user(&mut file, &mut fs, &ms, &mem, buf, 8), 8);
    assert_eq!(write_file_from_user(&mut file, &mut fs, &ms, &mem, buf, 3), 3);
    assert_eq!(inode.read_at(&fs, 0, 64), b"abcdefghabc".to_vec());
    assert_eq!(file.offset, 11);
}

#[test]
fn mkdir_unlink_rename_by_path() {
    let (mut fs, usr, a, b) = tree();
    let mut p = process(1, None);
    assert_eq!(sys_mkdir(&p, &mut fs, b"/usr/lib"), 0);
    let lib = usr.find(&fs, b"lib").unwrap();
    assert!(lib.is_dir(&fs));
    assert_eq!(sys_mkdir(&p, &mut fs, b"usr/lib"), -1);
    assert_eq!(sys_mkdir(&p, &mut fs, b"nowhere/x"), -1);
    assert_eq!(sys_mkdir(&p, &mut fs, b"file.txt/x"), -1);
    assert_eq!(sys_mkdir(&p, &mut fs, b"usr/.."), -1);
    p.cwd_inode = a.inode_number();
    assert_eq!(sys_rename(&p, &mut fs, b"b", b"c"), 0);
    assert_eq!(a.find(&fs, b"c"), Some(b));
    assert!(a.find(&fs, b"b").is_none());
    assert_eq!(sys_rename(&p, &mut fs, b"c", b"/usr/c"), -1);
    assert_eq!(sys_rename(&p, &mut fs, b"missing", b"d"), -1);
    assert_eq!(sys_unlink(&p, &mut fs, b"/usr"), -1);
    assert_eq!(sys_unlink(&p, &mut fs, b"/usr/lib"), 0);
    assert!(usr.is_empty_directory(&fs));
    assert_eq!(sys_unlink(&p, &mut fs, b"c"), 0);
    assert_eq!(sys_unlink(&p, &mut fs, b"c"), -1);
}

#[test]
fn fork_child_inherits_group_priority_and_descriptors() {
    let mut t = table();
    t.procs[1].pgid = 7;
    t.procs[1].priority = Some(9);
    t.procs[1].cwd = b"/usr".to_vec();
    t.procs[1].cwd_inode = 3;
    t.procs[1].fd_table[1] = None;
    assert_eq!(sys_fork(&mut t, 1, 10), 10);
    assert_eq!(t.procs.len(), 4);
    let c = &t.procs[3];
    assert_eq!(c.pid, 10);
    assert_eq!(c.parent, Some(2));
    assert_eq!(c.pgid, 7);
    assert_eq!(c.priority, Some(9));
    assert_eq!(c.fd_table, vec![Some(file(0, true, false)), None, Some(file(1, false, true))]);
    assert_eq!(c.cwd, b"/usr".to_vec());
    assert_eq!(c.cwd_inode, 3);
    assert!(c.children.is_empty());
    assert_eq!(c.sched.base_priority, 9);
    assert_eq!(c.sched.runtime_ticks, 0);
    assert_eq!(t.procs[1].children, vec![child(10, false, false, 0)]);
    assert_eq!(sys_getpgrp(&t.procs[3]), 7);
}

#[test]
fn read_and_write_go_through_the_descriptor_table() {
    let mut a = StackFrameAllocator::new();
    a.init(0x100, 0x200);
    let mut mem = ram();
    let mut ms = user_space(&mut a);
    let mut fs = EasyFileSystem::new();
    let src = fs.root_inode().create(&mut fs, b"src").unwrap();
    src.write_at(&mut fs, 0, b"hello");
    let dst = fs.root_inode().create(&mut fs, b"dst").unwrap();
    let mut files = vec![OSInode::new(true, false, src), OSInode::new(false, true, dst)];
    let mut p = process(1, None);
    p.fd_table = vec![Some(file(0, true, false)), Some(file(1, false, true)), Some(file(7, true, true)), None];
    let buf = 0x10ffe;
    // descriptor 0 reads file 0 into the buffer
    assert_eq!(read_fd(&p, &mut files, &fs, &mut ms, &mut a, &mut mem, 0, buf, 5), 5);
    assert_eq!(user_bytes(&ms, &mem, buf, 5), b"hello".to_vec());
    assert_eq!(files[0].offset, 5);
    assert_eq!(files[1].offset, 0);
    // descriptor 1 is not readable, 2 names no open file, 3 is closed, 9 is out of range
    assert_eq!(read_fd(&p, &mut files, &fs, &mut ms, &mut a, &mut mem, 1, buf, 5), -1);
    assert_eq!(read_fd(&p, &mut files, &fs, &mut ms, &mut a, &mut mem, 2, buf, 5), -1);
    assert_eq!(read_fd(&p, &mut files, &fs, &mut ms, &mut a, &mut mem, 3, buf, 5), -1);
    assert_eq!(read_fd(&p, &mut files, &fs, &mut ms, &mut a, &mut mem, 9, buf, 5), -1);
    // descriptor 1 writes the buffer to file 1; descriptor 0 cannot write
    assert_eq!(write_fd(&p, &mut files, &mut fs, &ms, &mem, 1, buf, 5), 5);
    assert_eq!(write_fd(&p, &mut files, &mut fs, &ms, &mem, 0, buf, 5), -1);
    assert_eq!(dst.read_at(&fs, 0, 16), b"hello".to_vec());
    assert_eq!(files[1].offset, 5);
    assert_eq!(src.read_at(&fs, 0, 16), b"hello".to_vec());
}

#[test]
fn pipe_takes_the_two_lowest_free_descriptors() {
    let mut p = process(1, None);
    p.fd_table[1] = None;
    assert_eq!(sys_pipe(&mut p, 20, 21), (1, 3));
    assert_eq!(p.fd_table[1], Some(file(20, true, false)));
    assert_eq!(p.fd_table[3], Some(file(21, false, true)));
    assert_eq!(p.fd_table.len(), 4);
    assert_eq!(sys_pipe(&mut p, 30, 31), (4, 5));
}

#[test]
fn exit_leaves_a_zombie_for_the_parent_and_hands_children_to_init() {
    let mut t = ProcessTable {
        procs: vec![process(0, None), process(1, Some(0)), process(2, Some(1)), process(3, Some(2))],
    };
    t.procs[0].children = vec![child(1, false, false, 0)];
    t.procs[1].children = vec![child(2, false, false, 0)];
    t.procs[2].children = vec![child(3, true, false, 5)];
    sys_exit(&mut t, 2, 0, 42);
    assert_eq!(t.procs[1].children, vec![child(2, true, false, 42)]);
    assert_eq!(wait_target(&t.procs[1], 2, 0), WaitTarget::Zombie(0));
    assert!(t.procs[2].children.is_empty());
    assert_eq!(t.procs[3].parent, Some(0));
    assert_eq!(t.procs[0].children, vec![child(1, false, false, 0), child(3, true, false, 5)]);
    assert_eq!(t.procs[2].parent, Some(1));
}

#[test]
fn yield_puts_the_task_back_at_the_end() {
    let mut m = TaskManager::new();
    m.add(TaskControlBlock::new(1, 0x80, 0, 0x1000, true, 0x90), 0);
    let mut running = TaskControlBlock::new(2, 0x81, 0, 0x1000, true, 0x91);
    running.inner.task_status = TaskStatus::Running;
    assert_eq!(sys_yield(&mut m, running, 7), 0);
    assert_eq!(m.fetch(8).unwrap().pid, 1);
    let back = m.fetch(9).unwrap();
    assert_eq!(back.pid, 2);
    assert_eq!(back.inner.task_status, TaskStatus::Ready);
    assert_eq!(back.inner.sched_info.total_wait_ticks, 2);
}

#[test]
fn pipe_stores_both_descriptors_in_a_private_user_array() {
    let mut a = StackFrameAllocator::new();
    a.init(0x100, 0x200);
    let mut mem = ram();
    let mut parent = user_space(&mut a);
    let (forked, _) = parent.from_existed_user_cow(0x3ff, &mut a, &mut mem);
    let arr = 0x10ff8;
    let before = user_bytes(&forked, &mem, arr, 16);
    let mut p = process(1, None);
    assert_eq!(sys_pipe_user(&mut p, &mut parent, &mut a, &mut mem, arr, 40, 41), 0);
    assert_eq!(p.fd_table[3], Some(file(40, true, false)));
    assert_eq!(p.fd_table[4], Some(file(41, false, true)));
    // the array crosses into the next page
    let words = user_bytes(&parent, &mem, arr, 16);
    assert_eq!(u64::from_le_bytes(words[..8].try_into().unwrap()), 3);
    assert_eq!(u64::from_le_bytes(words[8..].try_into().unwrap()), 4);
    assert_eq!(user_bytes(&forked, &mem, arr, 16), before);
    // a read-only page cannot take them; the descriptors are taken all the same
    assert_eq!(sys_pipe_user(&mut p, &mut parent, &mut a, &mut mem, 0x1000, 50, 51), -1);
    assert_eq!(p.fd_table.len(), 7);
}

#[test]
fn forked_child_returns_zero() {
    let mut mem = PhysMem { base: 0x100 * PAGE_SIZE, bytes: vec![0xee; 0x10 * PAGE_SIZE] };
    assert!(fork_child_return(&mut mem, 0x105));
    let a0 = 5 * PAGE_SIZE + 80;
    assert_eq!(mem.bytes[a0..a0 + 8].to_vec(), vec![0u8; 8]);
    assert_eq!(mem.bytes[a0 - 1], 0xee);
    assert_eq!(mem.bytes[a0 + 8], 0xee);
    assert!(!fork_child_return(&mut mem, 0x200));
    assert_eq!(mem.bytes.iter().filter(|&&b| b == 0).count(), 8);
}

#[test]
fn path_cwd_and_listing_are_copied_into_user_memory() {
    let mut a = StackFrameAllocator::new();
    a.init(0x100, 0x200);
    let mut mem = ram();
    let mut ms = user_space(&mut a);
    let (forked, _) = ms.from_existed_user_cow(0x3ff, &mut a, &mut mem);
    let mut p = process(1, None);
    let buf = 0x10ffa;
    let before = user_bytes(&forked, &mem, buf, 16);
    assert_eq!(sys_setpath(&mut p, b"/bin:/usr/bin".to_vec()), 0);
    assert_eq!(sys_getpath_user(&p, &mut ms, &mut a, &mut mem, buf, 64), 13);
    assert_eq!(user_bytes(&ms, &mem, buf, 13), b"/bin:/usr/bin".to_vec());
    assert_eq!(user_bytes(&forked, &mem, buf, 16), before);
    assert_eq!(sys_getpath_user(&p, &mut ms, &mut a, &mut mem, 0x10800, 4), 4);
    assert_eq!(user_bytes(&ms, &mem, 0x10800, 4), b"/bin".to_vec());
    assert_eq!(sys_getcwd_user(&p, &mut ms, &mut a, &mut mem, 0x10900, 8), 1);
    assert_eq!(user_bytes(&ms, &mem, 0x10900, 1), b"/".to_vec());
    // a read-only page cannot take them
    assert_eq!(sys_getpath_user(&p, &mut ms, &mut a, &mut mem, 0x1000, 8), -1);
    let (fs, _, _, _) = tree();
    let mut listing = vec![0u8; 64];
    let n = sys_getdents(&p, &fs, b"/", &mut listing);
    assert!(n > 0);
    assert_eq!(sys_getdents_user(&p, &fs, b"/", &mut ms, &mut a, &mut mem, 0x10a00, 64), n);
    assert_eq!(user_bytes(&ms, &mem, 0x10a00, n as usize), listing[..n as usize].to_vec());
    assert_eq!(sys_getdents_user(&p, &fs, b"/file.txt", &mut ms, &mut a, &mut mem, 0x10a00, 64), -1);
}
