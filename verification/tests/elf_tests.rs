use rcore_os::apps::list_apps;
use rcore_os::elf::{exec_candidates, fill_loads, is_elf, load_elf, sys_exec, sys_exec_user, ElfHeaderInfo, SegmentInfo};
use rcore_os::frame_allocator::{StackFrameAllocator, PAGE_SIZE};
use rcore_os::memory_set::{MapPermission, MapType, MemorySet, TRAMPOLINE_VPN};
use rcore_os::process::Process;
use rcore_os::sched::SchedInfo;
use rcore_os::phys_mem::{translated_args, PhysMem};
use rcore_os::vfs::{DiskInodeType, EasyFileSystem};
use rcore_os::page_table::{FLAG_R, FLAG_U, FLAG_W, FLAG_X};

fn allocator(l: usize, r: usize) -> StackFrameAllocator {
    let mut a = StackFrameAllocator::new();
    a.init(l, r);
    a
}

/// Physical memory holding frames 0x100..0x200.
fn ram() -> PhysMem {
    PhysMem { base: 0x100 * PAGE_SIZE, bytes: vec![0; 0x100 * PAGE_SIZE] }
}

fn put16(b: &mut Vec<u8>, at: usize, v: u16) {
    b[at..at + 2].copy_from_slice(&v.to_le_bytes());
}

fn put32(b: &mut Vec<u8>, at: usize, v: u32) {
    b[at..at + 4].copy_from_slice(&v.to_le_bytes());
}

fn put64(b: &mut Vec<u8>, at: usize, v: u64) {
    b[at..at + 8].copy_from_slice(&v.to_le_bytes());
}

/// A 64-bit RISC-V executable with a text segment (two pages, R+X) at
/// 0x10000 and a data segment (one page, R+W) at 0x12000.
fn sample_elf() -> Vec<u8> {
    let mut b = vec![0u8; 512];
    b[0..4].copy_from_slice(&[0x7f, b'E', b'L', b'F']);
    b[4] = 2; // 64-bit
    b[5] = 1; // little endian
    b[6] = 1; // version
    put16(&mut b, 16, 2); // executable
    put16(&mut b, 18, 0xf3); // RISC-V
    put32(&mut b, 20, 1);
    put64(&mut b, 24, 0x10000); // entry
    put64(&mut b, 32, 64); // program headers right after this header
    put16(&mut b, 52, 64);
    put16(&mut b, 54, 56);
    put16(&mut b, 56, 2);
    // text
    put32(&mut b, 64, 1); // LOAD
    put32(&mut b, 68, 0x4 | 0x1); // R X
    put64(&mut b, 72, 0);
    put64(&mut b, 80, 0x10000);
    put64(&mut b, 88, 0x10000);
    put64(&mut b, 96, 0x100);
    put64(&mut b, 104, 0x1800);
    put64(&mut b, 112, 0x1000);
    // data
    put32(&mut b, 120, 1); // LOAD
    put32(&mut b, 124, 0x4 | 0x2); // R W
    put64(&mut b, 128, 0x100);
    put64(&mut b, 136, 0x12000);
    put64(&mut b, 144, 0x12000);
    put64(&mut b, 152, 0x80);
    put64(&mut b, 160, 0x1000);
    put64(&mut b, 168, 0x1000);
    b
}

#[test]
fn loads_each_segment_as_a_user_area() {
    let data = sample_elf();
    let mut a = allocator(0x100, 0x200);
    let (ms, stack_base, entry) = load_elf(&data, 0x3ff, &mut a, &mut ram()).unwrap();
    assert_eq!(entry, 0x10000);
    // one guard page above the last segment
    assert_eq!(stack_base, 0x13 * PAGE_SIZE + PAGE_SIZE);
    assert_eq!(ms.areas.len(), 2);
    assert_eq!((ms.areas[0].start_vpn, ms.areas[0].end_vpn), (0x10, 0x12));
    assert_eq!((ms.areas[1].start_vpn, ms.areas[1].end_vpn), (0x12, 0x13));
    assert!(ms.areas[0].map_type == MapType::Framed);
    assert_eq!(ms.areas[0].map_perm.bits, FLAG_U | FLAG_R | FLAG_X);
    assert_eq!(ms.areas[1].map_perm.bits, FLAG_U | FLAG_R | FLAG_W);
    let text = ms.translate(0x11).unwrap();
    assert!(text.is_valid() && text.executable() && !text.writable());
    let data_page = ms.translate(0x12).unwrap();
    assert!(data_page.writable() && data_page.user_accessible());
    assert_eq!(ms.translate(TRAMPOLINE_VPN).unwrap().ppn(), 0x3ff);
}

#[test]
fn refuses_what_is_not_a_program() {
    let mut a = allocator(0x100, 0x200);
    let mut data = sample_elf();
    data[1] = b'X';
    assert!(load_elf(&data, 0x3ff, &mut a, &mut ram()).is_none());
    assert!(load_elf(&[0x7f, b'E', b'L', b'F'], 0x3ff, &mut a, &mut ram()).is_none());
    // nothing was taken from the allocator
    assert_eq!(a.free_count(), 0x100);
}

#[test]
fn refuses_overlapping_segments() {
    let mut a = allocator(0x100, 0x200);
    let mut data = sample_elf();
    put64(&mut data, 136, 0x11000); // data now shares page 0x11 with text
    assert!(load_elf(&data, 0x3ff, &mut a, &mut ram()).is_none());
    assert_eq!(a.free_count(), 0x100);
}

#[test]
fn refuses_when_frames_are_short() {
    let mut a = allocator(0x100, 0x104);
    assert!(load_elf(&sample_elf(), 0x3ff, &mut a, &mut ram()).is_none());
    assert_eq!(a.free_count(), 4);
}

fn shell_process(path_var: &[u8]) -> Process {
    Process {
        pid: 1,
        parent: None,
        pgid: 1,
        priority: Some(4),
        fd_table: vec![None, None, None],
        cwd: b"/".to_vec(),
        cwd_inode: 0,
        path_var: path_var.to_vec(),
        sig_ignored: 0,
        children: Vec::new(),
        sched: SchedInfo::new(4),
    }
}

#[test]
fn exec_accepts_only_elf_files() {
    let data = sample_elf();
    assert!(is_elf(&data));
    assert!(!is_elf(b"#!/bin/sh"));
    assert!(!is_elf(&[0x7f, b'E']));
    let mut fs = EasyFileSystem::new();
    let root = fs.root_inode();
    let bin = root.create_as(&mut fs, b"bin", DiskInodeType::Directory).unwrap();
    let prog = bin.create(&mut fs, b"prog").unwrap();
    prog.write_at(&mut fs, 0, &data);
    let notes = bin.create(&mut fs, b"notes").unwrap();
    notes.write_at(&mut fs, 0, b"plain text");
    let p = shell_process(b"/usr/bin:/bin");
    let mut a = allocator(0x100, 0x200);
    let mut ms = MemorySet::new_bare(&mut a);
    let mut mem = ram();
    assert_eq!(sys_exec(&p, &mut ms, &fs, b"notes", 3, 0x3ff, &mut a, &mut mem), -1);
    assert_eq!(ms.areas.len(), 0);
    assert_eq!(sys_exec(&p, &mut ms, &fs, b"missing", 1, 0x3ff, &mut a, &mut mem), -1);
    assert_eq!(sys_exec(&p, &mut ms, &fs, b"prog", 3, 0x3ff, &mut a, &mut mem), 3);
    assert_eq!(ms.areas.len(), 2);
    assert_eq!(ms.areas[0].start_vpn, 0x10);
    assert_eq!(sys_exec(&p, &mut ms, &fs, b"/bin/prog", 2, 0x3ff, &mut a, &mut mem), 2);
    assert_eq!(sys_exec(&p, &mut ms, &fs, b"bin/prog", 0, 0x3ff, &mut a, &mut mem), 0);
    assert_eq!(sys_exec(&shell_process(b"/usr/bin"), &mut ms, &fs, b"prog", 1, 0x3ff, &mut a, &mut mem), -1);
    assert_eq!(p.fd_table, vec![None, None, None]);
}

#[test]
fn exec_looks_up_bare_names_in_path() {
    let r = exec_candidates(b"ls", b"/bin:/usr/bin");
    assert_eq!(r, vec![b"/bin/ls".to_vec(), b"/usr/bin/ls".to_vec()]);
    let r = exec_candidates(b"ls", b"::/bin:");
    assert_eq!(r, vec![b"/bin/ls".to_vec()]);
    assert_eq!(exec_candidates(b"./ls", b"/bin"), vec![b"./ls".to_vec()]);
    assert_eq!(exec_candidates(b"/bin/ls", b""), vec![b"/bin/ls".to_vec()]);
    assert!(exec_candidates(b"ls", b"").is_empty());
}

#[test]
fn app_list_is_split_at_nul_bytes() {
    let buf = b"hello\0\0shell\0cat\0tail-without-nul";
    assert_eq!(list_apps(buf, buf.len() as isize), vec![b"hello".to_vec(), b"shell".to_vec(), b"cat".to_vec()]);
    assert_eq!(list_apps(buf, 8), vec![b"hello".to_vec()]);
    assert!(list_apps(buf, 0).is_empty());
    assert!(list_apps(buf, -1).is_empty());
}

#[test]
fn loads_from_a_misaligned_buffer() {
    let mut bytes = vec![0u8];
    bytes.extend_from_slice(&sample_elf());
    let mut a = allocator(0x100, 0x200);
    let (ms, _, entry) = load_elf(&bytes[1..], 0x3ff, &mut a, &mut ram()).unwrap();
    assert_eq!(ms.areas.len(), 2);
    assert_eq!(entry, 0x10000);
}

#[test]
fn refuses_a_misaligned_program_header_table() {
    let mut data = sample_elf();
    put64(&mut data, 32, 68);
    let mut a = allocator(0x100, 0x200);
    assert!(load_elf(&data, 0x3ff, &mut a, &mut ram()).is_none());
    assert_eq!(a.free_count(), 0x100);
}

#[test]
fn loading_copies_the_segment_bytes() {
    let mut data = sample_elf();
    for i in 0x100..0x180 {
        data[i] = (i % 97) as u8 + 1;
    }
    let mut a = allocator(0x100, 0x200);
    let mut mem = PhysMem { base: 0x100 * PAGE_SIZE, bytes: vec![0xee; 0x100 * PAGE_SIZE] };
    let (ms, _, _) = load_elf(&data, 0x3ff, &mut a, &mut mem).unwrap();
    // the text segment: file bytes 0..0x100 at the start of page 0x10, zeros after them
    let text = (ms.translate(0x10).unwrap().ppn() - 0x100) * PAGE_SIZE;
    assert_eq!(mem.bytes[text..text + 0x100], data[..0x100]);
    assert!(mem.bytes[text + 0x100..text + PAGE_SIZE].iter().all(|&b| b == 0));
    let text2 = (ms.translate(0x11).unwrap().ppn() - 0x100) * PAGE_SIZE;
    assert!(mem.bytes[text2..text2 + PAGE_SIZE].iter().all(|&b| b == 0));
    // the data segment: file bytes 0x100..0x180 at the start of page 0x12
    let d = (ms.translate(0x12).unwrap().ppn() - 0x100) * PAGE_SIZE;
    assert_eq!(mem.bytes[d..d + 0x80], data[0x100..0x180]);
    assert!(mem.bytes[d + 0x80..d + PAGE_SIZE].iter().all(|&b| b == 0));
}

#[test]
fn exec_reads_its_path_and_arguments_from_user_memory() {
    let data = sample_elf();
    let mut fs = EasyFileSystem::new();
    let root = fs.root_inode();
    let bin = root.create_as(&mut fs, b"bin", DiskInodeType::Directory).unwrap();
    let prog = bin.create(&mut fs, b"prog").unwrap();
    prog.write_at(&mut fs, 0, &data);
    let p = shell_process(b"/bin");
    let mut a = allocator(0x100, 0x200);
    let mut mem = ram();
    let mut ms = MemorySet::new_bare(&mut a);
    ms.insert_framed_area(0x20000, 0x21000, MapPermission { bits: FLAG_R | FLAG_W | FLAG_U }, &mut a);
    let mut user = vec![0u8; 0x200];
    user[..5].copy_from_slice(b"prog\0");
    user[0x10..0x12].copy_from_slice(b"a\0");
    user[0x18..0x1b].copy_from_slice(b"bc\0");
    put64(&mut user, 0x100, 0x20010);
    put64(&mut user, 0x108, 0x20018);
    put64(&mut user, 0x110, 0);
    ms.areas[0].copy_data(&ms.page_table, &mut mem, &user);
    assert_eq!(translated_args(&ms.page_table, &mem, 0x20100), vec![b"a".to_vec(), b"bc".to_vec()]);
    assert_eq!(translated_args(&ms.page_table, &mem, 0x20110), Vec::<Vec<u8>>::new());
    // the path names no program when read from the argument strings
    let mut other = MemorySet::new_bare(&mut a);
    other.insert_framed_area(0x20000, 0x21000, MapPermission { bits: FLAG_R | FLAG_W | FLAG_U }, &mut a);
    other.areas[0].copy_data(&other.page_table, &mut mem, &user);
    assert_eq!(sys_exec_user(&p, &mut other, &fs, 0x20018, 0x20100, 0x3ff, &mut a, &mut mem), -1);
    assert_eq!(other.areas.len(), 1);
    assert_eq!(sys_exec_user(&p, &mut ms, &fs, 0x20000, 0x20100, 0x3ff, &mut a, &mut mem), 2);
    assert_eq!(ms.areas[0].start_vpn, 0x10);
}

fn segment(is_load: bool, vaddr: u64, mem_size: u64, offset: u64, file_size: u64, writable: bool) -> SegmentInfo {
    SegmentInfo { is_load, vaddr, mem_size, offset, file_size, readable: true, writable, executable: !writable }
}

#[test]
fn maps_and_fills_given_program_headers() {
    let h = ElfHeaderInfo { is_64: true, entry: 0x10040, ph_offset: 64, ph_entry_size: 56, ph_count: 3 };
    let segs = vec![
        segment(true, 0x10000, 0x1800, 0, 0x10, false),
        segment(false, 0x90000, 0x1000, 0, 0, false),
        segment(true, 0x13000, 0x10, 0x10, 4, true),
    ];
    let mut a = allocator(0x100, 0x200);
    let mut mem = PhysMem { base: 0x100 * PAGE_SIZE, bytes: vec![0xee; 0x100 * PAGE_SIZE] };
    let (ms, stack_base, entry) = MemorySet::map_segments(h, &segs, 0x3ff, &mut a);
    assert_eq!(ms.areas.len(), 2);
    assert_eq!((ms.areas[0].start_vpn, ms.areas[0].end_vpn), (0x10, 0x12));
    assert_eq!((ms.areas[1].start_vpn, ms.areas[1].end_vpn), (0x13, 0x14));
    assert_eq!(ms.areas[0].map_perm.bits, FLAG_U | FLAG_R | FLAG_X);
    assert_eq!(ms.areas[1].map_perm.bits, FLAG_U | FLAG_R | FLAG_W);
    assert_eq!(stack_base, 0x15000);
    assert_eq!(entry, 0x10040);
    assert_eq!(ms.translate(TRAMPOLINE_VPN).unwrap().ppn(), 0x3ff);
    let data: Vec<u8> = (1..=0x20u8).collect();
    fill_loads(&ms, &data, &segs, &mut mem);
    let f0 = (ms.translate(0x10).unwrap().ppn() - 0x100) * PAGE_SIZE;
    assert_eq!(mem.bytes[f0..f0 + 0x10].to_vec(), data[..0x10].to_vec());
    assert_eq!(mem.bytes[f0 + 0x10], 0);
    let f1 = (ms.translate(0x13).unwrap().ppn() - 0x100) * PAGE_SIZE;
    assert_eq!(mem.bytes[f1..f1 + 4].to_vec(), data[0x10..0x14].to_vec());
    assert_eq!(mem.bytes[f1 + 4], 0);
}
